//! Pictures and formulas set on the text line, the way a browser sets
//! inline images: items run left to right in "line boxes"; a picture's
//! bottom row sits on the row the words are on, growing upwards; a
//! formula's baseline row is that row, its numerator above and its
//! denominator below. When the next item does not fit the box closes and
//! the next one starts below it. Text that runs past the edge is cut at the
//! column limit (character by character, nothing dropped) and goes on in
//! the next box.
use vstd::prelude::*;
use crate::table::{Run, RunModel, cell_view, lines_view, plain, char_cols, char_width};
use crate::decorate::copy_layers;
use crate::text::{chars_of, string_of};

verus! {

/// One thing on a line.
#[derive(Debug)]
pub enum InlineItem {
    /// A run of styled text.
    Text(Vec<Run>),
    /// A picture `w` columns wide and `h` rows tall.
    Image { url: String, w: u16, h: u16 },
    /// A formula drawn as rows of text; row `baseline` is the one on the
    /// text line.
    Formula { rows: Vec<String>, baseline: u16, w: u16 },
}

/// Where the layout put something.
#[derive(Debug, Clone)]
pub struct Placed<T> {
    pub row: u16,
    pub col: u16,
    pub what: T,
}

/// One row's worth of one text item: the item's index, the display column
/// of the item's text it starts at, and its runs.
#[derive(Debug, Clone)]
pub struct TextPiece {
    pub part: usize,
    pub start: usize,
    pub line: Vec<Run>,
}

pub enum ItemM {
    Text(Seq<RunModel>),
    Image(Seq<char>, int, int),
    Formula(Seq<Seq<char>>, int, int),
}

pub open spec fn item_view(it: InlineItem) -> ItemM {
    match it {
        InlineItem::Text(rs) => ItemM::Text(cell_view(rs@)),
        InlineItem::Image { url, w, h } => ItemM::Image(url@, w as int, h as int),
        InlineItem::Formula { rows, baseline, w } => ItemM::Formula(
            rows@.map_values(|r: String| r@),
            baseline as int,
            w as int,
        ),
    }
}

pub open spec fn items_view(v: Seq<InlineItem>) -> Seq<ItemM> {
    v.map_values(|it: InlineItem| item_view(it))
}

pub open spec fn piece_view(p: TextPiece) -> (int, int, Seq<RunModel>) {
    (p.part as int, p.start as int, cell_view(p.line@))
}

pub open spec fn placed_images_view(v: Seq<Placed<String>>) -> Seq<(int, int, Seq<char>)> {
    v.map_values(|p: Placed<String>| (p.row as int, p.col as int, p.what@))
}

pub open spec fn placed_texts_view(v: Seq<Placed<TextPiece>>) -> Seq<(int, int, (int, int, Seq<RunModel>))> {
    v.map_values(|p: Placed<TextPiece>| (p.row as int, p.col as int, piece_view(p.what)))
}

/// The box being filled and what is placed so far: its top row, how far it
/// reaches above and below the text row, how far along it is, what waits
/// in it (pictures as `(col, height, url)`, text as `(col, rows off the
/// text row, piece)`), and what earlier boxes placed.
pub struct LState {
    pub top: int,
    pub above: int,
    pub below: int,
    pub x: int,
    pub pimg: Seq<(int, int, Seq<char>)>,
    pub ptxt: Seq<(int, int, (int, int, Seq<RunModel>))>,
    pub images: Seq<(int, int, Seq<char>)>,
    pub texts: Seq<(int, int, (int, int, Seq<RunModel>))>,
}

pub open spec fn start_state() -> LState {
    LState {
        top: 0,
        above: 0,
        below: 0,
        x: 0,
        pimg: Seq::empty(),
        ptxt: Seq::empty(),
        images: Seq::empty(),
        texts: Seq::empty(),
    }
}

pub open spec fn max_int(a: int, b: int) -> int {
    if a >= b { a } else { b }
}

pub open spec fn min_int(a: int, b: int) -> int {
    if a <= b { a } else { b }
}

/// Close the box: everything is placed against the row the text sits on,
/// `base`. A picture's last row is that row; a piece's row is that row
/// plus its offset.
pub open spec fn flush(s: LState, indent: int) -> LState {
    let base = s.top + s.above;
    LState {
        top: base + s.below + 1,
        above: 0,
        below: 0,
        x: 0,
        pimg: Seq::empty(),
        ptxt: Seq::empty(),
        images: s.images + s.pimg.map_values(|p: (int, int, Seq<char>)| (base + 1 - p.1, p.0 + indent, p.2)),
        texts: s.texts + s.ptxt.map_values(
            |p: (int, int, (int, int, Seq<RunModel>))| (max_int(base + p.1, 0), p.0 + indent, p.2),
        ),
    }
}

/// The text of some runs, in order.
pub open spec fn run_text(rs: Seq<RunModel>) -> Seq<char>
    decreases rs.len(),
{
    if rs.len() == 0 {
        Seq::empty()
    } else {
        rs[0].text + run_text(rs.drop_first())
    }
}

/// The runs cut after `k` characters: the part before, the part after.
pub open spec fn split_runs(rs: Seq<RunModel>, k: int) -> (Seq<RunModel>, Seq<RunModel>)
    decreases rs.len(),
{
    if rs.len() == 0 || k <= 0 {
        (Seq::empty(), rs)
    } else if rs[0].text.len() <= k {
        let (a, b) = split_runs(rs.drop_first(), k - rs[0].text.len());
        (seq![rs[0]] + a, b)
    } else {
        (
            seq![RunModel { text: rs[0].text.take(k), layers: rs[0].layers }],
            seq![RunModel { text: rs[0].text.skip(k), layers: rs[0].layers }] + rs.drop_first(),
        )
    }
}

/// The columns of some characters.
pub open spec fn cols_of(cs: Seq<char>) -> int
    decreases cs.len(),
{
    if cs.len() == 0 {
        0
    } else {
        cols_of(cs.drop_last()) + char_cols(cs.last())
    }
}

/// How many characters from `k` on still fit in `room` columns with `used`
/// taken.
pub open spec fn fit_from(cs: Seq<char>, room: int, k: int, used: int) -> int
    decreases cs.len() - k,
{
    if 0 <= k < cs.len() && used + char_cols(cs[k]) <= room {
        fit_from(cs, room, k + 1, used + char_cols(cs[k]))
    } else {
        k
    }
}

/// The characters the first row takes: as many as fit, at least one.
pub open spec fn take_count(cs: Seq<char>, room: int) -> int {
    let f = fit_from(cs, room, 0, 0);
    if f == 0 { 1 } else { f }
}

pub proof fn lemma_fit_from(cs: Seq<char>, room: int, k: int, used: int)
    requires
        0 <= k <= cs.len(),
    ensures
        k <= fit_from(cs, room, k, used) <= cs.len(),
    decreases cs.len() - k,
{
    if 0 <= k < cs.len() && used + char_cols(cs[k]) <= room {
        lemma_fit_from(cs, room, k + 1, used + char_cols(cs[k]));
    }
}

pub proof fn lemma_split_runs(rs: Seq<RunModel>, k: int)
    requires
        0 <= k <= run_text(rs).len(),
    ensures
        run_text(split_runs(rs, k).0) == run_text(rs).take(k),
        run_text(split_runs(rs, k).1) == run_text(rs).skip(k),
    decreases rs.len(),
{
    if rs.len() == 0 || k <= 0 {
        assert(run_text(rs).take(0) =~= Seq::<char>::empty());
        assert(run_text(rs).skip(0) =~= run_text(rs));
    } else {
        let r = rs[0];
        let t = run_text(rs);
        assert(t == r.text + run_text(rs.drop_first()));
        if r.text.len() <= k {
            lemma_split_runs(rs.drop_first(), k - r.text.len());
            let (a, b) = split_runs(rs.drop_first(), k - r.text.len());
            assert((seq![r] + a).drop_first() =~= a);
            assert((seq![r] + a)[0] == r);
            assert(t.take(k) =~= r.text + run_text(rs.drop_first()).take(k - r.text.len()));
            assert(t.skip(k) =~= run_text(rs.drop_first()).skip(k - r.text.len()));
        } else {
            let a = seq![RunModel { text: r.text.take(k), layers: r.layers }];
            let b = seq![RunModel { text: r.text.skip(k), layers: r.layers }] + rs.drop_first();
            assert(a.drop_first() =~= Seq::<RunModel>::empty());
            assert(run_text(a.drop_first()) == Seq::<char>::empty());
            assert(a[0].text == r.text.take(k));
            assert(run_text(a) == a[0].text + run_text(a.drop_first()));
            assert(run_text(a) =~= r.text.take(k));
            assert(b.drop_first() =~= rs.drop_first());
            assert(t.take(k) =~= r.text.take(k));
            assert(t.skip(k) =~= r.text.skip(k) + run_text(rs.drop_first()));
        }
    }
}

/// One text item from `rest` on, starting at display column `start` of
/// the item.
pub open spec fn text_go(s: LState, part: int, rest: Seq<RunModel>, start: int, body: int, indent: int) -> LState
    decreases run_text(rest).len(), (if s.x > 0 { 1int } else { 0int }),
{
    let cs = run_text(rest);
    let room = if body > s.x { body - s.x } else { 0 };
    if room < 2 && s.x > 0 {
        text_go(flush(s, indent), part, rest, start, body, indent)
    } else if cs.len() == 0 {
        s
    } else {
        let k = take_count(cs, if room > 1 { room } else { 1 });
        proof {
            lemma_fit_from(cs, if room > 1 { room } else { 1 }, 0, 0);
            lemma_split_runs(rest, k);
        }
        let first = split_runs(rest, k).0;
        let tail = split_runs(rest, k).1;
        let used = cols_of(cs.take(k));
        let s2 = LState { x: s.x + used, ptxt: s.ptxt.push((s.x, 0, (part, start, first))), ..s };
        if run_text(tail).len() == 0 {
            s2
        } else {
            text_go(flush(s2, indent), part, tail, start + used, body, indent)
        }
    }
}

/// One item placed.
pub open spec fn item_step(s: LState, part: int, it: ItemM, body: int, indent: int) -> LState {
    match it {
        ItemM::Image(url, w, h) => {
            let w2 = min_int(w, body);
            let s1 = if s.x > 0 && s.x + w2 > body { flush(s, indent) } else { s };
            let h2 = max_int(h, 1);
            LState {
                pimg: s1.pimg.push((s1.x, h2, url)),
                above: max_int(s1.above, h2 - 1),
                x: s1.x + w2,
                ..s1
            }
        },
        ItemM::Formula(rows, bl, w) => {
            let w2 = min_int(w, body);
            let s1 = if s.x > 0 && s.x + w2 > body { flush(s, indent) } else { s };
            let b = min_int(bl, rows.len() - 1);
            LState {
                ptxt: s1.ptxt + Seq::new(
                    rows.len(),
                    |k: int| (s1.x, k - b, (part, 0int, seq![plain(rows[k])])),
                ),
                above: max_int(s1.above, b),
                below: max_int(s1.below, rows.len() - 1 - b),
                x: s1.x + w2,
                ..s1
            }
        },
        ItemM::Text(rs) => text_go(s, part, rs, 0, body, indent),
    }
}

/// The first `k` items placed.
pub open spec fn steps(items: Seq<ItemM>, k: int, body: int, indent: int) -> LState
    decreases k,
{
    if k <= 0 {
        start_state()
    } else {
        item_step(steps(items, k - 1, body, indent), k - 1, items[k - 1], body, indent)
    }
}

/// The whole line: pictures placed, text placed, and how many rows it
/// took (at least one).
pub open spec fn spec_layout_inline(items: Seq<ItemM>, indent: int, width: int) -> (
    Seq<(int, int, Seq<char>)>,
    Seq<(int, int, (int, int, Seq<RunModel>))>,
    int,
) {
    let body = max_int(width - indent, 1);
    let s = flush(steps(items, items.len() as int, body, indent), indent);
    (s.images, s.texts, max_int(s.top, 1))
}


// ---------------------------------------------------------------------------
// Room to place it all in 16-bit rows and columns
// ---------------------------------------------------------------------------

/// Rows and columns one item can add: its width and height and a row for
/// each box it may close (a text closes at most two boxes a character, and
/// may close one before it starts).
pub open spec fn item_cost(it: ItemM) -> int {
    match it {
        ItemM::Text(rs) => cols_of(run_text(rs)) + 2 * run_text(rs).len() + 1,
        ItemM::Image(_, w, h) => w + max_int(h, 1) + 1,
        ItemM::Formula(rows, _, w) => w + rows.len() + 1,
    }
}

pub open spec fn cost_from(items: Seq<ItemM>, k: int) -> int
    decreases items.len() - k,
{
    if k < 0 || k >= items.len() {
        0
    } else {
        item_cost(items[k]) + cost_from(items, k + 1)
    }
}

/// Every formula has a row.
pub open spec fn formulas_ok(items: Seq<ItemM>) -> bool {
    forall|k: int| 0 <= k < items.len() && (#[trigger] items[k]) is Formula ==> items[k]->Formula_0.len() >= 1
}

/// The state can take `budget` more without leaving 16 bits, and what
/// waits in the box lies inside it.
pub open spec fn sound(s: LState, indent: int, budget: int) -> bool {
    &&& 0 <= s.top && 0 <= s.above && 0 <= s.below && 0 <= s.x && 0 <= budget && 0 <= indent
    &&& s.top + s.above + s.below + s.x + budget + indent <= 65535
    &&& forall|i: int| 0 <= i < s.pimg.len() ==> 0 <= (#[trigger] s.pimg[i]).0 <= s.x && 1 <= s.pimg[i].1 <= s.above + 1
    &&& forall|i: int| 0 <= i < s.ptxt.len() ==> 0 <= (#[trigger] s.ptxt[i]).0 <= s.x && -s.above <= s.ptxt[i].1 <= s.below
}

proof fn lemma_cols_of_take(cs: Seq<char>, k: int)
    requires
        0 <= k < cs.len(),
    ensures
        cols_of(cs.take(k + 1)) == cols_of(cs.take(k)) + char_cols(cs[k]),
{
    assert(cs.take(k + 1).drop_last() =~= cs.take(k));
}

proof fn lemma_cols_of_split(cs: Seq<char>, k: int)
    requires
        0 <= k <= cs.len(),
    ensures
        cols_of(cs) == cols_of(cs.take(k)) + cols_of(cs.skip(k)),
        cols_of(cs.take(k)) >= 0,
        cols_of(cs.skip(k)) >= 0,
    decreases cs.len() - k,
{
    lemma_cols_nonneg(cs.take(k));
    lemma_cols_nonneg(cs.skip(k));
    if k == cs.len() {
        assert(cs.take(k) =~= cs);
        assert(cs.skip(k) =~= Seq::<char>::empty());
    } else {
        lemma_cols_of_split(cs, k + 1);
        lemma_cols_of_take(cs, k);
        lemma_cols_front(cs.skip(k));
        assert(cs.skip(k).drop_first() =~= cs.skip(k + 1));
    }
}

proof fn lemma_cols_nonneg(cs: Seq<char>)
    ensures
        cols_of(cs) >= 0,
    decreases cs.len(),
{
    if cs.len() > 0 {
        lemma_cols_nonneg(cs.drop_last());
    }
}

proof fn lemma_cols_front(cs: Seq<char>)
    requires
        cs.len() > 0,
    ensures
        cols_of(cs) == char_cols(cs[0]) + cols_of(cs.drop_first()),
    decreases cs.len(),
{
    if cs.len() > 1 {
        lemma_cols_front(cs.drop_last());
        assert(cs.drop_last().drop_first() =~= cs.drop_first().drop_last());
    } else {
        assert(cs.drop_last() =~= Seq::<char>::empty());
        assert(cs.drop_first() =~= Seq::<char>::empty());
    }
}

// ---------------------------------------------------------------------------
// The layout, executed
// ---------------------------------------------------------------------------

spec fn same_box(a: LState, b: LState) -> bool {
    a.top == b.top && a.above == b.above && a.below == b.below && a.x == b.x && a.pimg == b.pimg && a.ptxt == b.ptxt
}

struct Acc {
    top: u64,
    above: u64,
    below: u64,
    x: u64,
    pimg: Vec<(u64, u64, String)>,
    ptxt: Vec<(u64, i64, TextPiece)>,
    images: Vec<Placed<String>>,
    texts: Vec<Placed<TextPiece>>,
}

spec fn acc_view(a: Acc) -> LState {
    LState {
        top: a.top as int,
        above: a.above as int,
        below: a.below as int,
        x: a.x as int,
        pimg: a.pimg@.map_values(|p: (u64, u64, String)| (p.0 as int, p.1 as int, p.2@)),
        ptxt: a.ptxt@.map_values(|p: (u64, i64, TextPiece)| (p.0 as int, p.1 as int, piece_view(p.2))),
        images: placed_images_view(a.images@),
        texts: placed_texts_view(a.texts@),
    }
}

fn copy_runs(rs: &Vec<Run>) -> (r: Vec<Run>)
    ensures
        cell_view(r@) == cell_view(rs@),
{
    let mut r: Vec<Run> = Vec::new();
    let mut i: usize = 0;
    while i < rs.len()
        invariant
            i <= rs.len(),
            cell_view(r@) == cell_view(rs@).take(i as int),
        decreases rs.len() - i,
    {
        let t = rs[i].text.clone();
        let l = copy_layers(&rs[i].layers);
        let ghost before = cell_view(r@);
        let run = Run { text: t, layers: l };
        assert(run@ == rs@[i as int]@);
        r.push(run);
        assert(cell_view(r@) =~= before.push(rs@[i as int]@));
        assert(cell_view(rs@).take(i + 1) =~= cell_view(rs@).take(i as int).push(rs@[i as int]@));
        i += 1;
    }
    assert(cell_view(rs@).take(rs.len() as int) =~= cell_view(rs@));
    r
}

fn flush_exec(a: &mut Acc, indent: usize, Ghost(b): Ghost<int>)
    requires
        sound(acc_view(*old(a)), indent as int, b),
        b >= 1,
    ensures
        acc_view(*final(a)) == flush(acc_view(*old(a)), indent as int),
        sound(acc_view(*final(a)), indent as int, b - 1),
{
    let ghost s0 = acc_view(*a);
    let base = a.top + a.above;
    let mut i: usize = 0;
    let ghost imgs0 = a.images@;
    while i < a.pimg.len()
        invariant
            i <= a.pimg.len(),
            same_box(s0, acc_view(*a)),
            acc_view(*a).texts == s0.texts,
            base == s0.top + s0.above,
            sound(s0, indent as int, b),
            placed_images_view(a.images@) == s0.images + s0.pimg.take(i as int).map_values(
                |p: (int, int, Seq<char>)| (base + 1 - p.1, p.0 + indent, p.2),
            ),
        decreases a.pimg.len() - i,
    {
        let (c, h, url) = (a.pimg[i].0, a.pimg[i].1, a.pimg[i].2.clone());
        assert(s0.pimg[i as int] == (c as int, h as int, url@));
        let row = (base + 1 - h) as u16;
        let col = (c + indent as u64) as u16;
        let ghost before = placed_images_view(a.images@);
        a.images.push(Placed { row, col, what: url });
        assert(placed_images_view(a.images@) =~= before.push((base + 1 - h, c + indent, url@)));
        assert(s0.pimg.take(i + 1) =~= s0.pimg.take(i as int).push(s0.pimg[i as int]));
        assert(placed_images_view(a.images@) =~= s0.images + s0.pimg.take(i + 1).map_values(
            |p: (int, int, Seq<char>)| (base + 1 - p.1, p.0 + indent, p.2),
        ));
        i += 1;
    }
    assert(s0.pimg.take(a.pimg.len() as int) =~= s0.pimg);
    let mut j: usize = 0;
    while j < a.ptxt.len()
        invariant
            j <= a.ptxt.len(),
            same_box(s0, acc_view(*a)),
            base == s0.top + s0.above,
            sound(s0, indent as int, b),
            placed_images_view(a.images@) == s0.images + s0.pimg.map_values(
                |p: (int, int, Seq<char>)| (base + 1 - p.1, p.0 + indent, p.2),
            ),
            placed_texts_view(a.texts@) == s0.texts + s0.ptxt.take(j as int).map_values(
                |p: (int, int, (int, int, Seq<RunModel>))| (max_int(base + p.1, 0), p.0 + indent, p.2),
            ),
        decreases a.ptxt.len() - j,
    {
        let c = a.ptxt[j].0;
        let off = a.ptxt[j].1;
        let piece = TextPiece {
            part: a.ptxt[j].2.part,
            start: a.ptxt[j].2.start,
            line: copy_runs(&a.ptxt[j].2.line),
        };
        assert(s0.ptxt[j as int] == (c as int, off as int, piece_view(a.ptxt@[j as int].2)));
        assert(piece_view(piece) == piece_view(a.ptxt@[j as int].2));
        let r: i64 = base as i64 + off;
        let row = r as u16;
        let col = (c + indent as u64) as u16;
        let ghost before = placed_texts_view(a.texts@);
        a.texts.push(Placed { row, col, what: piece });
        assert(placed_texts_view(a.texts@) =~= before.push((max_int(base + off, 0), c + indent, piece_view(piece))));
        assert(s0.ptxt.take(j + 1) =~= s0.ptxt.take(j as int).push(s0.ptxt[j as int]));
        assert(placed_texts_view(a.texts@) =~= s0.texts + s0.ptxt.take(j + 1).map_values(
            |p: (int, int, (int, int, Seq<RunModel>))| (max_int(base + p.1, 0), p.0 + indent, p.2),
        ));
        j += 1;
    }
    assert(s0.ptxt.take(a.ptxt.len() as int) =~= s0.ptxt);
    a.top = base + a.below + 1;
    a.above = 0;
    a.below = 0;
    a.x = 0;
    a.pimg = Vec::new();
    a.ptxt = Vec::new();
    assert(acc_view(*a).pimg =~= Seq::<(int, int, Seq<char>)>::empty());
    assert(acc_view(*a).ptxt =~= Seq::<(int, int, (int, int, Seq<RunModel>))>::empty());
}


/// The characters of some runs.
fn all_chars(rs: &Vec<Run>) -> (v: Vec<char>)
    ensures
        v@ == run_text(cell_view(rs@)),
{
    let ghost cv = cell_view(rs@);
    let mut v: Vec<char> = Vec::new();
    let mut i: usize = 0;
    assert(cv.skip(0) =~= cv);
    while i < rs.len()
        invariant
            i <= rs.len(),
            cv == cell_view(rs@),
            run_text(cv) == v@ + run_text(cv.skip(i as int)),
        decreases rs.len() - i,
    {
        let cs = chars_of(rs[i].text.as_str());
        assert(cv.skip(i as int).drop_first() =~= cv.skip(i + 1));
        assert(cv.skip(i as int)[0] == cv[i as int]);
        let mut k: usize = 0;
        let ghost v0 = v@;
        while k < cs.len()
            invariant
                k <= cs.len(),
                v@ == v0 + cs@.take(k as int),
            decreases cs.len() - k,
        {
            v.push(cs[k]);
            assert(cs@.take(k + 1) =~= cs@.take(k as int).push(cs@[k as int]));
            k += 1;
        }
        assert(cs@.take(cs.len() as int) =~= cs@);
        assert(v0 + cs@ + run_text(cv.skip(i + 1)) =~= v0 + (cs@ + run_text(cv.skip(i + 1))));
        i += 1;
    }
    assert(cv.skip(rs.len() as int) =~= Seq::<RunModel>::empty());
    assert(v@ + Seq::<char>::empty() =~= v@);
    v
}

/// How many characters the first row takes, and their columns.
fn take_count_exec(cs: &Vec<char>, room: usize) -> (r: (usize, u64))
    requires
        cs.len() > 0,
        cols_of(cs@) <= 65535,
    ensures
        r.0 == take_count(cs@, room as int),
        1 <= r.0 <= cs.len(),
        r.1 == cols_of(cs@.take(r.0 as int)),
{
    let mut k: usize = 0;
    let mut used: u64 = 0;
    proof {
        lemma_fit_from(cs@, room as int, 0, 0);
        assert(cs@.take(0) =~= Seq::<char>::empty());
        lemma_cols_of_split(cs@, 0);
    }
    let mut go = true;
    while go && k < cs.len()
        invariant
            k <= cs.len(),
            fit_from(cs@, room as int, 0, 0) == fit_from(cs@, room as int, k as int, used as int),
            used == cols_of(cs@.take(k as int)),
            used <= room,
            !go ==> k < cs.len() && used + char_cols(cs@[k as int]) > room,
        decreases cs.len() - k, (if go { 1int } else { 0int }),
    {
        let w = char_width(cs[k]);
        if (used as u128) + (w as u128) <= room as u128 {
            proof {
                lemma_cols_of_take(cs@, k as int);
            }
            used = used + w as u64;
            k += 1;
        } else {
            go = false;
        }
    }
    assert(fit_from(cs@, room as int, k as int, used as int) == k);
    if k == 0 {
        let w = char_width(cs[0]);
        proof {
            lemma_cols_of_take(cs@, 0);
            assert(cs@.take(0) =~= Seq::<char>::empty());
            lemma_cols_of_split(cs@, 1);
        }
        (1, w as u64)
    } else {
        proof {
            lemma_fit_from(cs@, room as int, k as int, used as int);
        }
        (k, used)
    }
}

/// The runs cut after `k` characters.
fn split_runs_exec(rs: &Vec<Run>, k: usize) -> (r: (Vec<Run>, Vec<Run>))
    ensures
        cell_view(r.0@) == split_runs(cell_view(rs@), k as int).0,
        cell_view(r.1@) == split_runs(cell_view(rs@), k as int).1,
{
    let ghost cv = cell_view(rs@);
    let mut a: Vec<Run> = Vec::new();
    let mut left = k;
    let mut i: usize = 0;
    assert(cv.skip(0) =~= cv);
    assert(cell_view(a@) + split_runs(cv.skip(0), k as int).0 =~= split_runs(cv, k as int).0);
    while i < rs.len() && left > 0 && rs[i].text.unicode_len() <= left
        invariant
            i <= rs.len(),
            cv == cell_view(rs@),
            cell_view(a@) + split_runs(cv.skip(i as int), left as int).0 == split_runs(cv, k as int).0,
            split_runs(cv.skip(i as int), left as int).1 == split_runs(cv, k as int).1,
        decreases rs.len() - i,
    {
        let ghost before = cell_view(a@);
        let t = rs[i].text.clone();
        let l = copy_layers(&rs[i].layers);
        let run = Run { text: t, layers: l };
        assert(run@ == cv[i as int]);
        assert(cv.skip(i as int)[0] == cv[i as int]);
        assert(cv.skip(i as int).drop_first() =~= cv.skip(i + 1));
        let n = rs[i].text.unicode_len();
        a.push(run);
        assert(cell_view(a@) =~= before.push(cv[i as int]));
        let ghost rest = split_runs(cv.skip(i + 1), left - n);
        assert(split_runs(cv.skip(i as int), left as int).0 == seq![cv[i as int]] + rest.0);
        assert(cell_view(a@) + rest.0 =~= before + (seq![cv[i as int]] + rest.0));
        left = left - n;
        i += 1;
    }
    let mut b: Vec<Run> = Vec::new();
    if i < rs.len() && left > 0 {
        // the cut falls inside run `i`
        let cs = chars_of(rs[i].text.as_str());
        let hv = slice_to(&cs, left);
        let tv = slice_from(&cs, left);
        let head = string_of(hv.as_slice());
        let tail = string_of(tv.as_slice());
        let ghost r0 = cv[i as int];
        assert(cv.skip(i as int)[0] == cv[i as int]);
        assert(cv.skip(i as int).drop_first() =~= cv.skip(i + 1));
        a.push(Run { text: head, layers: copy_layers(&rs[i].layers) });
        b.push(Run { text: tail, layers: copy_layers(&rs[i].layers) });
        let mut j = i + 1;
        while j < rs.len()
            invariant
                i < j <= rs.len(),
                cv == cell_view(rs@),
                cell_view(b@) == seq![RunModel { text: r0.text.skip(left as int), layers: r0.layers }] + cv.subrange(i + 1, j as int),
            decreases rs.len() - j,
        {
            let t = rs[j].text.clone();
            let l = copy_layers(&rs[j].layers);
            let run = Run { text: t, layers: l };
            assert(run@ == cv[j as int]);
            let ghost before = cell_view(b@);
            b.push(run);
            assert(cell_view(b@) =~= before.push(cv[j as int]));
            assert(cv.subrange(i + 1, j + 1) =~= cv.subrange(i + 1, j as int).push(cv[j as int]));
            j += 1;
        }
        assert(cv.subrange(i + 1, rs.len() as int) =~= cv.skip(i + 1));
        assert(cell_view(a@) =~= split_runs(cv, k as int).0);
    } else {
        let mut j = i;
        while j < rs.len()
            invariant
                i <= j <= rs.len(),
                cv == cell_view(rs@),
                cell_view(b@) == cv.subrange(i as int, j as int),
            decreases rs.len() - j,
        {
            let t = rs[j].text.clone();
            let l = copy_layers(&rs[j].layers);
            let run = Run { text: t, layers: l };
            assert(run@ == cv[j as int]);
            let ghost before = cell_view(b@);
            b.push(run);
            assert(cell_view(b@) =~= before.push(cv[j as int]));
            assert(cv.subrange(i as int, j + 1) =~= cv.subrange(i as int, j as int).push(cv[j as int]));
            j += 1;
        }
        assert(cv.subrange(i as int, rs.len() as int) =~= cv.skip(i as int));
        assert(cell_view(a@) + Seq::<RunModel>::empty() =~= cell_view(a@));
    }
    (a, b)
}

fn slice_to(cs: &Vec<char>, k: usize) -> (r: Vec<char>)
    requires
        k <= cs.len(),
    ensures
        r@ == cs@.take(k as int),
{
    let mut r: Vec<char> = Vec::new();
    let mut i: usize = 0;
    while i < k
        invariant
            i <= k <= cs.len(),
            r@ == cs@.take(i as int),
        decreases k - i,
    {
        r.push(cs[i]);
        assert(cs@.take(i + 1) =~= cs@.take(i as int).push(cs@[i as int]));
        i += 1;
    }
    r
}

fn slice_from(cs: &Vec<char>, k: usize) -> (r: Vec<char>)
    requires
        k <= cs.len(),
    ensures
        r@ == cs@.skip(k as int),
{
    let mut r: Vec<char> = Vec::new();
    let mut i: usize = k;
    while i < cs.len()
        invariant
            k <= i <= cs.len(),
            r@ == cs@.subrange(k as int, i as int),
        decreases cs.len() - i,
    {
        r.push(cs[i]);
        assert(cs@.subrange(k as int, i + 1) =~= cs@.subrange(k as int, i as int).push(cs@[i as int]));
        i += 1;
    }
    r
}


proof fn lemma_sound_weaken(s: LState, indent: int, b: int, b2: int)
    requires
        sound(s, indent, b),
        0 <= b2 <= b,
    ensures
        sound(s, indent, b2),
{
}

proof fn lemma_item_cost_nonneg(it: ItemM)
    requires
        it is Image ==> it->Image_1 >= 0,
        it is Formula ==> it->Formula_2 >= 0,
    ensures
        item_cost(it) >= 1,
{
    match it {
        ItemM::Text(rs) => lemma_cols_nonneg(run_text(rs)),
        _ => {},
    }
}

fn image_exec(a: &mut Acc, url: &String, w: u16, h: u16, body: usize, indent: usize, Ghost(rem): Ghost<int>)
    requires
        sound(acc_view(*old(a)), indent as int, rem + item_cost(ItemM::Image(url@, w as int, h as int))),
        rem >= 0,
        body >= 1,
    ensures
        acc_view(*final(a)) == item_step(acc_view(*old(a)), 0, ItemM::Image(url@, w as int, h as int), body as int, indent as int),
        sound(acc_view(*final(a)), indent as int, rem),
{
    let ghost cost = item_cost(ItemM::Image(url@, w as int, h as int));
    let w2: u64 = if (w as u64) < body as u64 { w as u64 } else { body as u64 };
    let ghost mut left = rem + cost;
    if a.x > 0 && a.x + w2 > body as u64 {
        flush_exec(a, indent, Ghost(rem + cost));
        proof {
            left = rem + cost - 1;
        }
    }
    let h2: u64 = if h >= 1 { h as u64 } else { 1 };
    let ghost s1 = acc_view(*a);
    a.pimg.push((a.x, h2, url.clone()));
    if h2 - 1 > a.above {
        a.above = h2 - 1;
    }
    a.x = a.x + w2;
    proof {
        let s2 = acc_view(*a);
        assert(s2.pimg =~= s1.pimg.push((s1.x, h2 as int, url@)));
        assert forall|i: int| 0 <= i < s2.pimg.len() implies 0 <= (#[trigger] s2.pimg[i]).0 <= s2.x && 1 <= s2.pimg[i].1
            <= s2.above + 1 by {
            if i < s1.pimg.len() {
                assert(s2.pimg[i] == s1.pimg[i]);
            }
        }
        assert(s2.ptxt == s1.ptxt);
        lemma_sound_weaken(s2, indent as int, left - (h2 - 1) - w2, rem);
    }
}

fn formula_exec(
    a: &mut Acc, part: usize, rows: &Vec<String>, bl: u16, w: u16, body: usize, indent: usize, Ghost(rem): Ghost<int>,
)
    requires
        sound(acc_view(*old(a)), indent as int, rem + item_cost(ItemM::Formula(rows@.map_values(|r: String| r@), bl as int, w as int))),
        rem >= 0,
        body >= 1,
        rows.len() >= 1,
    ensures
        acc_view(*final(a)) == item_step(acc_view(*old(a)), part as int, ItemM::Formula(rows@.map_values(|r: String| r@), bl as int, w as int), body as int, indent as int),
        sound(acc_view(*final(a)), indent as int, rem),
{
    let ghost rv = rows@.map_values(|r: String| r@);
    let ghost cost = item_cost(ItemM::Formula(rv, bl as int, w as int));
    let w2: u64 = if (w as u64) < body as u64 { w as u64 } else { body as u64 };
    let ghost mut left = rem + cost;
    if a.x > 0 && a.x + w2 > body as u64 {
        flush_exec(a, indent, Ghost(rem + cost));
        proof {
            left = rem + cost - 1;
        }
    }
    let n = rows.len();
    assert(n <= 65535);
    let b: u64 = if (bl as u64) < (n - 1) as u64 { bl as u64 } else { (n - 1) as u64 };
    let ghost s1 = acc_view(*a);
    let mut k: usize = 0;
    while k < n
        invariant
            k <= n == rows.len() <= 65535,
            b <= n - 1,
            acc_view(*a).top == s1.top && acc_view(*a).above == s1.above && acc_view(*a).below == s1.below
                && acc_view(*a).x == s1.x && acc_view(*a).pimg == s1.pimg && acc_view(*a).images == s1.images
                && acc_view(*a).texts == s1.texts,
            acc_view(*a).ptxt == s1.ptxt + Seq::new(
                k as nat,
                |j: int| (s1.x, j - b, (part as int, 0int, seq![plain(rv[j])])),
            ),
            rv == rows@.map_values(|r: String| r@),
        decreases n - k,
    {
        let line: Vec<Run> = vec![Run { text: rows[k].clone(), layers: Vec::new() }];
        assert(cell_view(line@) =~= seq![plain(rv[k as int])]);
        let piece = TextPiece { part, start: 0, line };
        let off: i64 = k as i64 - b as i64;
        let ghost before = acc_view(*a).ptxt;
        a.ptxt.push((a.x, off, piece));
        assert(acc_view(*a).ptxt =~= before.push((s1.x, k - b, (part as int, 0int, seq![plain(rv[k as int])]))));
        assert(Seq::new((k + 1) as nat, |j: int| (s1.x, j - b, (part as int, 0int, seq![plain(rv[j])]))) =~= Seq::new(
            k as nat,
            |j: int| (s1.x, j - b, (part as int, 0int, seq![plain(rv[j])])),
        ).push((s1.x, k - b, (part as int, 0int, seq![plain(rv[k as int])]))));
        k += 1;
    }
    if b > a.above {
        a.above = b;
    }
    let down = (n - 1) as u64 - b;
    if down > a.below {
        a.below = down;
    }
    a.x = a.x + w2;
    proof {
        let s2 = acc_view(*a);
        assert(s2.ptxt == s1.ptxt + Seq::new(n as nat, |j: int| (s1.x, j - b, (part as int, 0int, seq![plain(rv[j])]))));
        assert(rv.len() == n);
        assert forall|i: int| 0 <= i < s2.ptxt.len() implies 0 <= (#[trigger] s2.ptxt[i]).0 <= s2.x && -s2.above
            <= s2.ptxt[i].1 <= s2.below by {
            if i < s1.ptxt.len() {
                assert(s2.ptxt[i] == s1.ptxt[i]);
            } else {
                assert(s2.ptxt[i] == (s1.x, (i - s1.ptxt.len()) - b, (part as int, 0int, seq![plain(rv[i - s1.ptxt.len()])])));
            }
        }
        assert(s2.pimg == s1.pimg);
        lemma_sound_weaken(s2, indent as int, left - b - down - w2, rem);
        assert(s2 == item_step(acc_view(*old(a)), part as int, ItemM::Formula(rv, bl as int, w as int), body as int, indent as int));
    }
}


fn text_exec(a: &mut Acc, part: usize, rs: &Vec<Run>, body: usize, indent: usize, Ghost(rem): Ghost<int>)
    requires
        sound(acc_view(*old(a)), indent as int, rem + item_cost(ItemM::Text(cell_view(rs@)))),
        rem >= 0,
        body >= 1,
    ensures
        acc_view(*final(a)) == text_go(acc_view(*old(a)), part as int, cell_view(rs@), 0, body as int, indent as int),
        sound(acc_view(*final(a)), indent as int, rem),
{
    let ghost target = text_go(acc_view(*a), part as int, cell_view(rs@), 0, body as int, indent as int);
    let ghost total = cols_of(run_text(cell_view(rs@)));
    proof {
        lemma_cols_nonneg(run_text(cell_view(rs@)));
        lemma_sound_weaken(
            acc_view(*a),
            indent as int,
            rem + item_cost(ItemM::Text(cell_view(rs@))),
            rem + total + 2 * run_text(cell_view(rs@)).len() + (if a.x > 0 { 1int } else { 0int }),
        );
    }
    let mut rest = copy_runs(rs);
    let mut start: usize = 0;
    loop
        invariant_except_break
            text_go(acc_view(*a), part as int, cell_view(rest@), start as int, body as int, indent as int) == target,
            sound(
                acc_view(*a),
                indent as int,
                rem + cols_of(run_text(cell_view(rest@))) + 2 * run_text(cell_view(rest@)).len() + (if a.x > 0 {
                    1int
                } else {
                    0int
                }),
            ),
        invariant
            start + cols_of(run_text(cell_view(rest@))) == total,
            total <= 65535,
            cols_of(run_text(cell_view(rest@))) >= 0,
            rem >= 0,
            body >= 1,
        ensures
            acc_view(*a) == target,
            sound(acc_view(*a), indent as int, rem),
        decreases run_text(cell_view(rest@)).len(), (if a.x > 0 { 1int } else { 0int }),
    {
        let ghost rv = cell_view(rest@);
        let ghost cs_s = run_text(rv);
        let ghost budget = rem + cols_of(cs_s) + 2 * cs_s.len() + (if a.x > 0 { 1int } else { 0int });
        let room: usize = if body as u64 > a.x { (body as u64 - a.x) as usize } else { 0 };
        if room < 2 && a.x > 0 {
            flush_exec(a, indent, Ghost(budget));
            continue;
        }
        let cs = all_chars(&rest);
        if cs.len() == 0 {
            proof {
                lemma_sound_weaken(acc_view(*a), indent as int, budget, rem);
            }
            break;
        }
        let fit_room: usize = if room > 1 { room } else { 1 };
        let (k, used) = take_count_exec(&cs, fit_room);
        let (first, tail) = split_runs_exec(&rest, k);
        proof {
            lemma_split_runs(rv, k as int);
            lemma_cols_of_split(cs_s, k as int);
        }
        let ghost s0 = acc_view(*a);
        let piece = TextPiece { part, start, line: first };
        a.ptxt.push((a.x, 0, piece));
        a.x = a.x + used;
        let ghost s2 = acc_view(*a);
        proof {
            assert(s2.ptxt =~= s0.ptxt.push((s0.x, 0, (part as int, start as int, split_runs(rv, k as int).0))));
            assert forall|i: int| 0 <= i < s2.ptxt.len() implies 0 <= (#[trigger] s2.ptxt[i]).0 <= s2.x && -s2.above
                <= s2.ptxt[i].1 <= s2.below by {
                if i < s0.ptxt.len() {
                    assert(s2.ptxt[i] == s0.ptxt[i]);
                }
            }
            assert(s2.pimg == s0.pimg);
            assert(sound(s2, indent as int, budget - used));
        }
        if k == cs.len() {
            proof {
                assert(cs_s.skip(k as int) =~= Seq::<char>::empty());
                lemma_sound_weaken(s2, indent as int, budget - used, rem);
            }
            break;
        }
        flush_exec(a, indent, Ghost(budget - used));
        rest = tail;
        start = start + used as usize;
        proof {
            lemma_cols_nonneg(cs_s.skip(k as int));
            lemma_sound_weaken(
                acc_view(*a),
                indent as int,
                budget - used - 1,
                rem + cols_of(cs_s.skip(k as int)) + 2 * (cs_s.len() - k),
            );
        }
    }
}

proof fn lemma_cost_from(items: Seq<InlineItem>, k: int)
    requires
        0 <= k <= items.len(),
    ensures
        cost_from(items_view(items), k) >= 0,
        k < items.len() ==> cost_from(items_view(items), k) == item_cost(items_view(items)[k]) + cost_from(
            items_view(items),
            k + 1,
        ),
        k < items.len() ==> item_cost(items_view(items)[k]) >= 1,
    decreases items.len() - k,
{
    if k < items.len() {
        lemma_cost_from(items, k + 1);
        lemma_item_cost_nonneg(items_view(items)[k]);
    }
}

/// Lay out one line of items (see `spec_layout_inline`): the pictures
/// placed, the text placed, and how many rows the line takes. Every row
/// and column fits in 16 bits when the items' widths, heights and text
/// (`cost_from`) leave room for them.
pub fn layout_inline(items: &[InlineItem], indent: usize, width: usize) -> (r: (
    Vec<Placed<String>>,
    Vec<Placed<TextPiece>>,
    u16,
))
    requires
        formulas_ok(items_view(items@)),
        cost_from(items_view(items@), 0) + 1 + indent <= 65535,
    ensures
        (placed_images_view(r.0@), placed_texts_view(r.1@), r.2 as int) == spec_layout_inline(
            items_view(items@),
            indent as int,
            width as int,
        ),
{
    let ghost iv = items_view(items@);
    let body: usize = if width > indent && width - indent > 1 { width - indent } else { 1 };
    assert(body as int == max_int(width - indent, 1));
    let mut a = Acc {
        top: 0,
        above: 0,
        below: 0,
        x: 0,
        pimg: Vec::new(),
        ptxt: Vec::new(),
        images: Vec::new(),
        texts: Vec::new(),
    };
    assert(acc_view(a).pimg =~= start_state().pimg);
    assert(acc_view(a).ptxt =~= start_state().ptxt);
    assert(acc_view(a).images =~= start_state().images);
    assert(acc_view(a).texts =~= start_state().texts);
    assert(acc_view(a) == start_state());
    proof {
        lemma_cost_from(items@, 0);
    }
    let mut k: usize = 0;
    while k < items.len()
        invariant
            k <= items.len(),
            iv == items_view(items@),
            formulas_ok(iv),
            body >= 1,
            acc_view(a) == steps(iv, k as int, body as int, indent as int),
            sound(acc_view(a), indent as int, cost_from(iv, k as int) + 1),
        decreases items.len() - k,
    {
        proof {
            lemma_cost_from(items@, k as int);
            lemma_cost_from(items@, k + 1);
        }
        let ghost rem = cost_from(iv, k + 1) + 1;
        assert(iv[k as int] == item_view(items@[k as int]));
        match &items[k] {
            InlineItem::Text(rs) => {
                text_exec(&mut a, k, rs, body, indent, Ghost(rem));
            },
            InlineItem::Image { url, w, h } => {
                image_exec(&mut a, url, *w, *h, body, indent, Ghost(rem));
            },
            InlineItem::Formula { rows, baseline, w } => {
                assert(iv[k as int] is Formula);
                formula_exec(&mut a, k, rows, *baseline, *w, body, indent, Ghost(rem));
            },
        }
        k += 1;
    }
    proof {
        lemma_cost_from(items@, k as int);
    }
    flush_exec(&mut a, indent, Ghost(1));
    let h: u16 = if a.top >= 1 { a.top as u16 } else { 1 };
    (a.images, a.texts, h)
}


/// `item_cost`, or `None` when it is over `cap`.
fn item_cost_capped(it: &InlineItem, cap: u64) -> (r: Option<u64>)
    requires
        cap <= 65535,
    ensures
        match r {
            Some(c) => c == item_cost(item_view(*it)) && c <= cap,
            None => item_cost(item_view(*it)) > cap,
        },
{
    match it {
        InlineItem::Image { url, w, h } => {
            let h2: u64 = if *h >= 1 { *h as u64 } else { 1 };
            let c = *w as u64 + h2 + 1;
            if c <= cap { Some(c) } else { None }
        },
        InlineItem::Formula { rows, baseline, w } => {
            let n = rows.len();
            if n as u64 > cap {
                return None;
            }
            let c = *w as u64 + n as u64 + 1;
            if c <= cap { Some(c) } else { None }
        },
        InlineItem::Text(rs) => {
            let cs = all_chars(rs);
            proof {
                lemma_cols_nonneg(cs@);
            }
            if cap == 0 {
                return None;
            }
            let mut sum: u64 = 1;
            let mut k: usize = 0;
            proof {
                assert(cs@.take(0) =~= Seq::<char>::empty());
            }
            while k < cs.len()
                invariant
                    k <= cs.len(),
                    cs@ == run_text(cell_view(rs@)),
                    item_view(*it) == ItemM::Text(cell_view(rs@)),
                    sum == cols_of(cs@.take(k as int)) + 2 * k + 1,
                    sum <= cap,
                decreases cs.len() - k,
            {
                let w = char_width(cs[k]);
                proof {
                    lemma_cols_of_take(cs@, k as int);
                }
                if w as u128 + sum as u128 + 2 > cap as u128 {
                    proof {
                        lemma_cols_of_split(cs@, k + 1);
                        lemma_cols_nonneg(cs@.skip(k + 1));
                        assert(cols_of(cs@.take(k + 1)) == sum - 2 * k - 1 + w);
                        assert(item_cost(item_view(*it)) == cols_of(cs@) + 2 * cs@.len() + 1);
                        assert(item_cost(item_view(*it)) > cap);
                    }
                    return None;
                }
                sum = sum + w as u64 + 2;
                k += 1;
            }
            assert(cs@.take(cs.len() as int) =~= cs@);
            Some(sum)
        },
    }
}

/// `layout_inline` where its room allows: `None` when a formula has no
/// rows or the line would need rows or columns past 16 bits.
pub fn layout_inline_checked(items: &[InlineItem], indent: usize, width: usize) -> (r: Option<(
    Vec<Placed<String>>,
    Vec<Placed<TextPiece>>,
    u16,
)>)
    ensures
        r is Some <==> (formulas_ok(items_view(items@)) && cost_from(items_view(items@), 0) + 1 + indent <= 65535),
        r matches Some(v) ==> (placed_images_view(v.0@), placed_texts_view(v.1@), v.2 as int) == spec_layout_inline(
            items_view(items@),
            indent as int,
            width as int,
        ),
{
    let ghost iv = items_view(items@);
    proof {
        lemma_cost_from(items@, 0);
    }
    if indent >= 65535 {
        return None;
    }
    let cap: u64 = 65534 - indent as u64;
    let mut total: u64 = 0;
    let mut k: usize = 0;
    while k < items.len()
        invariant
            k <= items.len(),
            iv == items_view(items@),
            cap == 65534 - indent,
            total <= cap,
            cost_from(iv, 0) == total + cost_from(iv, k as int),
            forall|j: int| 0 <= j < k && (#[trigger] iv[j]) is Formula ==> iv[j]->Formula_0.len() >= 1,
        decreases items.len() - k,
    {
        proof {
            lemma_cost_from(items@, k as int);
            lemma_cost_from(items@, k + 1);
        }
        assert(iv[k as int] == item_view(items@[k as int]));
        if let InlineItem::Formula { rows, .. } = &items[k] {
            if rows.len() == 0 {
                assert(!formulas_ok(iv));
                return None;
            }
        }
        match item_cost_capped(&items[k], cap - total) {
            Some(c) => {
                total = total + c;
            },
            None => {
                return None;
            },
        }
        k += 1;
    }
    Some(layout_inline(items, indent, width))
}


// ---------------------------------------------------------------------------
// Nothing of a text is lost or repeated
// ---------------------------------------------------------------------------

/// The text of the pieces of part `p` among `v`, in order.
pub open spec fn part_text(v: Seq<(int, int, (int, int, Seq<RunModel>))>, p: int) -> Seq<char>
    decreases v.len(),
{
    if v.len() == 0 {
        Seq::empty()
    } else if v.last().2.0 == p {
        part_text(v.drop_last(), p) + run_text(v.last().2.2)
    } else {
        part_text(v.drop_last(), p)
    }
}

proof fn lemma_part_text_add(a: Seq<(int, int, (int, int, Seq<RunModel>))>, b: Seq<(int, int, (int, int, Seq<RunModel>))>, p: int)
    ensures
        part_text(a + b, p) == part_text(a, p) + part_text(b, p),
    decreases b.len(),
{
    if b.len() == 0 {
        assert(a + b =~= a);
        assert(part_text(a, p) + Seq::<char>::empty() =~= part_text(a, p));
    } else {
        lemma_part_text_add(a, b.drop_last(), p);
        assert((a + b).drop_last() =~= a + b.drop_last());
        assert((a + b).last() == b.last());
        if b.last().2.0 == p {
            assert(part_text(a, p) + part_text(b.drop_last(), p) + run_text(b.last().2.2) =~= part_text(a, p)
                + (part_text(b.drop_last(), p) + run_text(b.last().2.2)));
        }
    }
}

proof fn lemma_part_text_moved(v: Seq<(int, int, (int, int, Seq<RunModel>))>, base: int, indent: int, p: int)
    ensures
        part_text(
            v.map_values(|q: (int, int, (int, int, Seq<RunModel>))| (max_int(base + q.1, 0), q.0 + indent, q.2)),
            p,
        ) == part_text(v, p),
    decreases v.len(),
{
    let f = |q: (int, int, (int, int, Seq<RunModel>))| (max_int(base + q.1, 0), q.0 + indent, q.2);
    if v.len() > 0 {
        lemma_part_text_moved(v.drop_last(), base, indent, p);
        assert(v.map_values(f).drop_last() =~= v.drop_last().map_values(f));
    } else {
        assert(v.map_values(f) =~= Seq::<(int, int, (int, int, Seq<RunModel>))>::empty());
    }
}

/// Everything of part `p` placed or waiting.
pub open spec fn total_text(s: LState, p: int) -> Seq<char> {
    part_text(s.texts, p) + part_text(s.ptxt, p)
}

proof fn lemma_flush_keeps(s: LState, indent: int, p: int)
    ensures
        total_text(flush(s, indent), p) == total_text(s, p),
{
    let base = s.top + s.above;
    let moved = s.ptxt.map_values(
        |q: (int, int, (int, int, Seq<RunModel>))| (max_int(base + q.1, 0), q.0 + indent, q.2),
    );
    lemma_part_text_add(s.texts, moved, p);
    lemma_part_text_moved(s.ptxt, base, indent, p);
    assert(part_text(Seq::<(int, int, (int, int, Seq<RunModel>))>::empty(), p) == Seq::<char>::empty());
    assert(total_text(flush(s, indent), p) =~= total_text(s, p));
}

proof fn lemma_text_go_adds(s: LState, j: int, rest: Seq<RunModel>, start: int, body: int, indent: int, p: int)
    ensures
        total_text(text_go(s, j, rest, start, body, indent), p) == total_text(s, p) + (if j == p {
            run_text(rest)
        } else {
            Seq::empty()
        }),
    decreases run_text(rest).len(), (if s.x > 0 { 1int } else { 0int }),
{
    let cs = run_text(rest);
    let room = if body > s.x { body - s.x } else { 0 };
    if room < 2 && s.x > 0 {
        lemma_flush_keeps(s, indent, p);
        lemma_text_go_adds(flush(s, indent), j, rest, start, body, indent, p);
    } else if cs.len() == 0 {
        assert(total_text(s, p) + Seq::<char>::empty() =~= total_text(s, p));
        assert(total_text(s, p) + cs =~= total_text(s, p));
    } else {
        let k = take_count(cs, if room > 1 { room } else { 1 });
        lemma_fit_from(cs, if room > 1 { room } else { 1 }, 0, 0);
        lemma_split_runs(rest, k);
        let first = split_runs(rest, k).0;
        let tail = split_runs(rest, k).1;
        let used = cols_of(cs.take(k));
        let s2 = LState { x: s.x + used, ptxt: s.ptxt.push((s.x, 0, (j, start, first))), ..s };
        assert(s2.ptxt.drop_last() =~= s.ptxt);
        assert(total_text(s2, p) == total_text(s, p) + (if j == p { run_text(first) } else { Seq::<char>::empty() })) by {
            if j == p {
                assert(part_text(s.texts, p) + (part_text(s.ptxt, p) + run_text(first)) =~= part_text(s.texts, p)
                    + part_text(s.ptxt, p) + run_text(first));
            } else {
                assert(total_text(s, p) + Seq::<char>::empty() =~= total_text(s, p));
            }
        }
        assert(cs.take(k) + cs.skip(k) =~= cs);
        if run_text(tail).len() == 0 {
            assert(run_text(first) =~= cs);
        } else {
            lemma_flush_keeps(s2, indent, p);
            lemma_text_go_adds(flush(s2, indent), j, tail, start + used, body, indent, p);
            if j == p {
                assert(total_text(s, p) + run_text(first) + run_text(tail) =~= total_text(s, p) + cs);
            } else {
                assert(total_text(s, p) + Seq::<char>::empty() + Seq::<char>::empty() =~= total_text(s, p)
                    + Seq::<char>::empty());
            }
        }
    }
}

proof fn lemma_formula_rows_other(x: int, b: int, j: int, rows: Seq<Seq<char>>, n: int, p: int)
    requires
        j != p,
        0 <= n <= rows.len(),
    ensures
        part_text(Seq::new(n as nat, |k: int| (x, k - b, (j, 0int, seq![plain(rows[k])]))), p) == Seq::<char>::empty(),
    decreases n,
{
    if n > 0 {
        lemma_formula_rows_other(x, b, j, rows, n - 1, p);
        assert(Seq::new(n as nat, |k: int| (x, k - b, (j, 0int, seq![plain(rows[k])]))).drop_last() =~= Seq::new(
            (n - 1) as nat,
            |k: int| (x, k - b, (j, 0int, seq![plain(rows[k])])),
        ));
    } else {
        assert(Seq::new(n as nat, |k: int| (x, k - b, (j, 0int, seq![plain(rows[k])]))) =~= Seq::<(int, int, (int, int, Seq<RunModel>))>::empty());
    }
}

proof fn lemma_steps_text(items: Seq<ItemM>, k: int, body: int, indent: int, p: int)
    requires
        0 <= k <= items.len(),
        0 <= p < items.len(),
        items[p] is Text,
    ensures
        total_text(steps(items, k, body, indent), p) == (if p < k { run_text(items[p]->Text_0) } else { Seq::<char>::empty() }),
    decreases k,
{
    if k == 0 {
        assert(part_text(Seq::<(int, int, (int, int, Seq<RunModel>))>::empty(), p) == Seq::<char>::empty());
        assert(total_text(start_state(), p) =~= Seq::<char>::empty());
    } else {
        lemma_steps_text(items, k - 1, body, indent, p);
        let s = steps(items, k - 1, body, indent);
        let before = total_text(s, p);
        let j = k - 1;
        match items[j] {
            ItemM::Image(url, w, h) => {
                let w2 = min_int(w, body);
                let s1 = if s.x > 0 && s.x + w2 > body { flush(s, indent) } else { s };
                lemma_flush_keeps(s, indent, p);
                assert(total_text(item_step(s, j, items[j], body, indent), p) == total_text(s1, p));
            },
            ItemM::Formula(rows, bl, w) => {
                let w2 = min_int(w, body);
                let s1 = if s.x > 0 && s.x + w2 > body { flush(s, indent) } else { s };
                lemma_flush_keeps(s, indent, p);
                let b = min_int(bl, rows.len() - 1);
                let added = Seq::new(rows.len(), |q: int| (s1.x, q - b, (j, 0int, seq![plain(rows[q])])));
                assert(j != p);
                lemma_formula_rows_other(s1.x, b, j, rows, rows.len() as int, p);
                lemma_part_text_add(s1.ptxt, added, p);
                assert(total_text(item_step(s, j, items[j], body, indent), p) =~= total_text(s1, p));
            },
            ItemM::Text(rs) => {
                lemma_text_go_adds(s, j, rs, 0, body, indent, p);
            },
        }
        if j == p {
            assert(before + run_text(items[p]->Text_0) =~= run_text(items[p]->Text_0));
        } else {
            assert(before + Seq::<char>::empty() =~= before);
        }
    }
}

/// A text item's pieces, taken in the order placed, give back its whole
/// text: the layout cuts it into rows and drops nothing.
pub proof fn law_text_pieces_join_back(items: Seq<ItemM>, indent: int, width: int, p: int)
    requires
        0 <= p < items.len(),
        items[p] is Text,
    ensures
        part_text(spec_layout_inline(items, indent, width).1, p) == run_text(items[p]->Text_0),
{
    let body = max_int(width - indent, 1);
    let s = steps(items, items.len() as int, body, indent);
    lemma_steps_text(items, items.len() as int, body, indent, p);
    lemma_flush_keeps(s, indent, p);
    assert(part_text(Seq::<(int, int, (int, int, Seq<RunModel>))>::empty(), p) == Seq::<char>::empty());
    assert(total_text(flush(s, indent), p) == part_text(flush(s, indent).texts, p) + Seq::<char>::empty());
    assert(part_text(flush(s, indent).texts, p) + Seq::<char>::empty() =~= part_text(flush(s, indent).texts, p));
}

} // verus!
