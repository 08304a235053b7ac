//! Inline notation of one line, read into pieces of text: page links and
//! `#tags`, bare and bracketed URLs, code spans, star decorations and
//! `[[bold]]`, icons and formulas. Each piece carries the layers of look
//! it wears, outermost first, for the screen to paint; every link, URL
//! and picture the line holds is collected on the way.
use vstd::prelude::*;
use crate::render::{Hit, HitTarget, LinkTruth, spec_title_lc};
use crate::text::{chars_of, string_of, is_whitespace, unicode_whitespace, find_from, find_chars, lemma_find_from_bounds};
use crate::inline::{
    find_char, close_from, as_index, spec_find_gyazo, is_http, spec_looks_like_image, spec_file_name,
};
use crate::text::{spec_trim, contains_seq, dec_str, join_with, trim, to_decimal, join_strs, spec_trim_end, trail_end};
use crate::math::split_pat;

verus! {

// ---------------------------------------------------------------------------
// What a piece looks like
// ---------------------------------------------------------------------------

/// One layer of look. A piece wears its layers one over the other, the
/// first outermost; each later one is laid over what the earlier gave.
#[derive(Clone, Copy, PartialEq, Eq, Debug, Structural)]
pub enum Layer {
    /// The heading look of `n` stars (`[* x]`, `[[x]]`): the theme's
    /// heading style for the level, bold and never italic.
    Stars(usize),
    Italic,
    Strike,
    Underline,
    /// Inline code.
    Code,
    /// A link to a page that exists (or is not known to be missing).
    Link,
    /// A link to a page nobody has written yet.
    LinkMissing,
    Url,
    /// A link to a picture on Gyazo.
    Gyazo,
    /// An icon, `[name.icon]`.
    Icon,
    /// The faint `*N` after a decoration of more than four stars.
    Marker(usize),
    /// Bold, as a table's header row wears it.
    Bold,
    /// A table's frame.
    Frame,
    /// A followable block label (`code:name`, `table:name`).
    BlockLabel,
    /// A list bullet.
    Bullet,
    /// The bar before a quote.
    QuoteBar,
    /// The `$` or `%` of a command line.
    Sigil,
    /// The command after its sigil.
    Command,
    /// A page's title line.
    Title,
    /// A line of code, drawn plain.
    CodeBody,
    /// Notation shown as written: a formula that could not be drawn.
    Notation,
    /// The rules that hold a drawn diagram's shape, drawn dim.
    Rule,
}

/// A piece of a decorated line.
#[derive(Clone, Debug, PartialEq)]
pub enum Piece {
    Text { text: String, layers: Vec<Layer> },
    /// A `[$ ... ]` formula: drawn where it can be, else its source (the
    /// LaTeX, trimmed) shown as notation.
    Formula { latex: String, source: String, layers: Vec<Layer> },
}

pub enum PieceModel {
    Text { text: Seq<char>, layers: Seq<Layer> },
    Formula { latex: Seq<char>, source: Seq<char>, layers: Seq<Layer> },
}

impl View for Piece {
    type V = PieceModel;

    open spec fn view(&self) -> PieceModel {
        match self {
            Piece::Text { text, layers } => PieceModel::Text { text: text@, layers: layers@ },
            Piece::Formula { latex, source, layers } => PieceModel::Formula {
                latex: latex@,
                source: source@,
                layers: layers@,
            },
        }
    }
}

/// Where a followable piece leads.
pub enum Goal {
    Page(Seq<char>),
    Url(Seq<char>, Seq<char>),
    BlockLabel,
}

pub open spec fn goal_of(t: HitTarget) -> Goal {
    match t {
        HitTarget::Page(p) => Goal::Page(p@),
        HitTarget::Url { label, url } => Goal::Url(label@, url@),
        HitTarget::BlockLabel => Goal::BlockLabel,
    }
}

/// A decorated line as it grows: its pieces, the pages it links to, the
/// pictures it shows, and which pieces can be followed where.
pub struct Decorated {
    pub pieces: Vec<Piece>,
    pub links: Vec<String>,
    pub images: Vec<String>,
    pub hits: Vec<Hit>,
}

pub struct DecoModel {
    pub pieces: Seq<PieceModel>,
    pub links: Seq<Seq<char>>,
    pub images: Seq<Seq<char>>,
    pub hits: Seq<(int, Goal)>,
}

pub open spec fn deco_view(d: Decorated) -> DecoModel {
    DecoModel {
        pieces: d.pieces@.map_values(|p: Piece| p@),
        links: d.links.deep_view(),
        images: d.images.deep_view(),
        hits: d.hits@.map_values(|h: Hit| (h.span as int, goal_of(h.target))),
    }
}

pub open spec fn with_piece(d: DecoModel, p: PieceModel) -> DecoModel {
    DecoModel { pieces: d.pieces.push(p), links: d.links, images: d.images, hits: d.hits }
}

/// A followable piece: the hit names the piece about to be added.
pub open spec fn with_hit(d: DecoModel, g: Goal) -> DecoModel {
    DecoModel { pieces: d.pieces, links: d.links, images: d.images, hits: d.hits.push((d.pieces.len() as int, g)) }
}

pub open spec fn with_link(d: DecoModel, l: Seq<char>) -> DecoModel {
    DecoModel { pieces: d.pieces, links: d.links.push(l), images: d.images, hits: d.hits }
}

pub open spec fn with_images(d: DecoModel, images: Seq<Seq<char>>) -> DecoModel {
    DecoModel { pieces: d.pieces, links: d.links, images, hits: d.hits }
}

/// Plain text, wearing only what the decorations around it give.
pub open spec fn raw(text: Seq<char>, outer: Seq<Layer>) -> PieceModel {
    PieceModel::Text { text, layers: outer }
}

/// Is the page of this title known to be missing?
pub open spec fn spec_missing(known: Map<Seq<char>, bool>, t: Seq<char>) -> bool {
    known.contains_key(spec_title_lc(t)) && !known[spec_title_lc(t)]
}

pub open spec fn link_layer(known: Map<Seq<char>, bool>, t: Seq<char>) -> Layer {
    if spec_missing(known, t) { Layer::LinkMissing } else { Layer::Link }
}

pub(crate) fn copy_layers(v: &Vec<Layer>) -> (r: Vec<Layer>)
    ensures
        r@ == v@,
{
    let mut r: Vec<Layer> = Vec::new();
    let mut i: usize = 0;
    while i < v.len()
        invariant
            i <= v.len(),
            r@ == v@.take(i as int),
        decreases v.len() - i,
    {
        r.push(v[i]);
        i += 1;
        assert(r@ =~= v@.take(i as int));
    }
    assert(v@.take(v.len() as int) =~= v@);
    r
}

fn layers_with(v: &Vec<Layer>, l: Layer) -> (r: Vec<Layer>)
    ensures
        r@ == v@.push(l),
{
    let mut r = copy_layers(v);
    r.push(l);
    r
}

fn chars_between(cs: &[char], a: usize, b: usize) -> (r: Vec<char>)
    requires
        a <= b <= cs.len(),
    ensures
        r@ == cs@.subrange(a as int, b as int),
{
    let mut r: Vec<char> = Vec::new();
    let mut k = a;
    while k < b
        invariant
            a <= k <= b <= cs.len(),
            r@ == cs@.subrange(a as int, k as int),
        decreases b - k,
    {
        r.push(cs[k]);
        k += 1;
        assert(r@ =~= cs@.subrange(a as int, k as int));
    }
    r
}

fn push_piece(d: &mut Decorated, p: Piece)
    ensures
        deco_view(*final(d)) == with_piece(deco_view(*old(d)), p@),
{
    let ghost before = deco_view(*d);
    d.pieces.push(p);
    assert(deco_view(*d).pieces =~= before.pieces.push(p@));
}

fn push_text(d: &mut Decorated, text: &[char], layers: Vec<Layer>)
    ensures
        deco_view(*final(d)) == with_piece(deco_view(*old(d)), PieceModel::Text { text: text@, layers: layers@ }),
{
    let t = string_of(text);
    push_piece(d, Piece::Text { text: t, layers });
}

fn push_hit(d: &mut Decorated, target: HitTarget)
    ensures
        deco_view(*final(d)) == with_hit(deco_view(*old(d)), goal_of(target)),
{
    let ghost before = deco_view(*d);
    let span = d.pieces.len();
    d.hits.push(Hit { span, target });
    assert(deco_view(*d).hits =~= before.hits.push((before.pieces.len() as int, goal_of(target))));
}

fn push_link(d: &mut Decorated, l: &[char])
    ensures
        deco_view(*final(d)) == with_link(deco_view(*old(d)), l@),
{
    let ghost before = deco_view(*d);
    d.links.push(string_of(l));
    assert(deco_view(*d).links =~= before.links.push(l@));
}

// ---------------------------------------------------------------------------
// URLs, tags, decorations
// ---------------------------------------------------------------------------

pub open spec fn http_prefix() -> Seq<char> {
    seq!['h', 't', 't', 'p', ':', '/', '/']
}

pub open spec fn https_prefix() -> Seq<char> {
    seq!['h', 't', 't', 'p', 's', ':', '/', '/']
}

/// Where the first URL in `s` starts: the earlier of `http://` and
/// `https://`.
pub open spec fn spec_find_url(s: Seq<char>) -> Option<int> {
    match (find_from(s, http_prefix(), 0), find_from(s, https_prefix(), 0)) {
        (Some(a), Some(b)) => Some(if a < b { a } else { b }),
        (Some(a), None) => Some(a),
        (None, b) => b,
    }
}

fn find_url(s: &[char]) -> (r: Option<usize>)
    ensures
        r == as_index(spec_find_url(s@)),
        r is Some ==> spec_find_url(s@) == Some(r->Some_0 as int),
        r is None ==> spec_find_url(s@) is None,
        r is Some ==> r->Some_0 + 7 <= s.len() && s@.subrange(r->Some_0 as int, r->Some_0 + 4) == seq!['h', 't', 't', 'p'],
{
    let h: Vec<char> = vec!['h', 't', 't', 'p', ':', '/', '/'];
    let hs: Vec<char> = vec!['h', 't', 't', 'p', 's', ':', '/', '/'];
    assert(h@ =~= http_prefix());
    assert(hs@ =~= https_prefix());
    let a = find_chars(s, h.as_slice(), 0);
    let b = find_chars(s, hs.as_slice(), 0);
    proof {
        lemma_find_from_bounds(s@, http_prefix(), 0);
        lemma_find_from_bounds(s@, https_prefix(), 0);
    }
    match (a, b) {
        (Some(x), Some(y)) => {
            assert(s@.subrange(x as int, x + 4) =~= http_prefix().take(4));
            assert(s@.subrange(y as int, y + 4) =~= https_prefix().take(4));
            if x < y { Some(x) } else { Some(y) }
        },
        (Some(x), None) => {
            assert(s@.subrange(x as int, x + 4) =~= http_prefix().take(4));
            Some(x)
        },
        (None, y) => {
            if y.is_some() {
                let yy = y.unwrap();
                assert(s@.subrange(yy as int, yy + 4) =~= https_prefix().take(4));
            }
            y
        },
    }
}

/// Where a URL starting at `k` ends: at the first whitespace or `]`.
pub open spec fn url_end(s: Seq<char>, k: int) -> int
    decreases s.len() - k,
{
    if k < 0 || k >= s.len() {
        s.len() as int
    } else if unicode_whitespace(s[k]) || s[k] == ']' {
        k
    } else {
        url_end(s, k + 1)
    }
}

proof fn lemma_url_end(s: Seq<char>, k: int)
    requires
        0 <= k <= s.len(),
    ensures
        k <= url_end(s, k) <= s.len(),
    decreases s.len() - k,
{
    if k < s.len() && !(unicode_whitespace(s[k]) || s[k] == ']') {
        lemma_url_end(s, k + 1);
    }
}

fn url_end_exec(s: &[char], k: usize) -> (e: usize)
    requires
        k <= s.len(),
    ensures
        e == url_end(s@, k as int),
        k <= e <= s.len(),
{
    proof {
        lemma_url_end(s@, k as int);
    }
    let mut j = k;
    while j < s.len() && !(is_whitespace(s[j]) || s[j] == ']')
        invariant
            k <= j <= s.len(),
            url_end(s@, k as int) == url_end(s@, j as int),
        decreases s.len() - j,
    {
        j += 1;
    }
    j
}

/// Where a tag starting at `k` ends: at the first whitespace.
pub open spec fn tag_end(s: Seq<char>, k: int) -> int
    decreases s.len() - k,
{
    if k < 0 || k >= s.len() {
        s.len() as int
    } else if unicode_whitespace(s[k]) {
        k
    } else {
        tag_end(s, k + 1)
    }
}

proof fn lemma_tag_end(s: Seq<char>, k: int)
    requires
        0 <= k <= s.len(),
    ensures
        k <= tag_end(s, k) <= s.len(),
    decreases s.len() - k,
{
    if k < s.len() && !unicode_whitespace(s[k]) {
        lemma_tag_end(s, k + 1);
    }
}

fn tag_end_exec(s: &[char], k: usize) -> (e: usize)
    requires
        k <= s.len(),
    ensures
        e == tag_end(s@, k as int),
        k <= e <= s.len(),
{
    proof {
        lemma_tag_end(s@, k as int);
    }
    let mut j = k;
    while j < s.len() && !is_whitespace(s[j])
        invariant
            k <= j <= s.len(),
            tag_end(s@, k as int) == tag_end(s@, j as int),
        decreases s.len() - j,
    {
        j += 1;
    }
    j
}

pub open spec fn is_flag(c: char) -> bool {
    c == '*' || c == '/' || c == '_' || c == '-'
}

/// The first character from `k` on that is not a decoration flag.
pub open spec fn flags_end(s: Seq<char>, k: int) -> Option<int>
    decreases s.len() - k,
{
    if k < 0 || k >= s.len() {
        None
    } else if !is_flag(s[k]) {
        Some(k)
    } else {
        flags_end(s, k + 1)
    }
}

proof fn lemma_flags_end(s: Seq<char>, k: int)
    requires
        0 <= k,
    ensures
        flags_end(s, k) is Some ==> k <= flags_end(s, k)->Some_0 < s.len(),
    decreases s.len() - k,
{
    if k < s.len() && is_flag(s[k]) {
        lemma_flags_end(s, k + 1);
    }
}

/// `[* text]`, `[*/ text]`, `[- text]`: a run of `*/_-`, a space, the
/// text. The flags and the text, or `None` when `inner` is not that.
pub open spec fn spec_strip_deco(s: Seq<char>) -> Option<(Seq<char>, Seq<char>)> {
    match flags_end(s, 0) {
        None => None,
        Some(e) => if e == 0 || s[e] != ' ' {
            None
        } else {
            Some((s.take(e), s.skip(e + 1)))
        },
    }
}

fn strip_deco_prefix(s: &[char]) -> (r: Option<(Vec<char>, Vec<char>)>)
    ensures
        match r {
            Some((f, b)) => spec_strip_deco(s@) == Some((f@, b@)),
            None => spec_strip_deco(s@) is None,
        },
{
    proof {
        lemma_flags_end(s@, 0);
    }
    let mut e: usize = 0;
    while e < s.len() && (s[e] == '*' || s[e] == '/' || s[e] == '_' || s[e] == '-')
        invariant
            e <= s.len(),
            flags_end(s@, 0) == flags_end(s@, e as int),
        decreases s.len() - e,
    {
        e += 1;
    }
    if e >= s.len() || e == 0 || s[e] != ' ' {
        return None;
    }
    let f = chars_between(s, 0, e);
    let b = chars_between(s, e + 1, s.len());
    assert(f@ =~= s@.take(e as int));
    assert(b@ =~= s@.skip(e + 1));
    Some((f, b))
}

/// `#tags` in plain text: each tag (a `#` at the start or after
/// whitespace, and the non-whitespace run after it) is a page link; the
/// text between stays plain. The first `#` that starts no tag ends the
/// reading, and the rest is plain.
pub open spec fn spec_tags(d: DecoModel, rest: Seq<char>, outer: Seq<Layer>, known: Map<Seq<char>, bool>) -> DecoModel
    decreases rest.len(),
{
    let tail = if rest.len() > 0 { with_piece(d, raw(rest, outer)) } else { d };
    match find_char(rest, '#', 0) {
        Some(pos) => {
            let te = tag_end(rest, pos + 1);
            let tag = rest.subrange(pos + 1, te);
            if 0 <= pos < rest.len() && pos + 1 <= te <= rest.len() && (pos == 0 || unicode_whitespace(rest[pos - 1]))
                && tag.len() > 0 {
                let d1 = if pos > 0 { with_piece(d, raw(rest.take(pos), outer)) } else { d };
                let d2 = with_piece(
                    with_hit(with_link(d1, tag), Goal::Page(tag)),
                    PieceModel::Text { text: seq!['#'] + tag, layers: outer.push(link_layer(known, tag)) },
                );
                spec_tags(d2, rest.skip(te), outer, known)
            } else {
                tail
            }
        },
        None => tail,
    }
}

fn link_layer_exec(known: &LinkTruth, t: &[char]) -> (l: Layer)
    requires
        known.wf(),
    ensures
        l == link_layer(known@, t@),
{
    let title = string_of(t);
    if known.missing(title.as_str()) { Layer::LinkMissing } else { Layer::Link }
}

fn find_char_in(cs: &[char], c: char) -> (r: Option<usize>)
    ensures
        r == as_index(find_char(cs@, c, 0)),
        r is Some ==> r->Some_0 < cs.len() && cs@[r->Some_0 as int] == c,
{
    crate::inline::find_char_exec(cs, c, 0)
}

fn push_tags(d: &mut Decorated, text: &[char], outer: &Vec<Layer>, known: &LinkTruth)
    requires
        known.wf(),
    ensures
        deco_view(*final(d)) == spec_tags(deco_view(*old(d)), text@, outer@, known@),
{
    let ghost goal = spec_tags(deco_view(*d), text@, outer@, known@);
    let mut rest: Vec<char> = chars_between(text, 0, text.len());
    assert(rest@ =~= text@);
    loop
        invariant_except_break
            spec_tags(deco_view(*d), rest@, outer@, known@) == goal,
        invariant
            known.wf(),
        ensures
            deco_view(*d) == goal,
        decreases rest.len(),
    {
        let ghost d0 = deco_view(*d);
        let ghost r0 = rest@;
        let found = find_char_in(rest.as_slice(), '#');
        proof {
            crate::inline::lemma_find_char(r0, '#', 0);
        }
        match found {
            Some(pos) => {
                let te = tag_end_exec(rest.as_slice(), pos + 1);
                let ok = pos == 0 || is_whitespace(rest[pos - 1]);
                if ok && te > pos + 1 {
                    let ghost tg = r0.subrange(pos + 1, te as int);
                    let ghost d1 = if pos > 0 { with_piece(d0, raw(r0.take(pos as int), outer@)) } else { d0 };
                    let ghost d2 = with_piece(
                        with_hit(with_link(d1, tg), Goal::Page(tg)),
                        PieceModel::Text { text: seq!['#'] + tg, layers: outer@.push(link_layer(known@, tg)) },
                    );
                    assert(spec_tags(d0, r0, outer@, known@) == spec_tags(d2, r0.skip(te as int), outer@, known@));
                    if pos > 0 {
                        let head = chars_between(rest.as_slice(), 0, pos);
                        assert(head@ =~= rest@.take(pos as int));
                        push_text(d, head.as_slice(), copy_layers(outer));
                    }
                    let tag = chars_between(rest.as_slice(), pos + 1, te);
                    push_link(d, tag.as_slice());
                    push_hit(d, HitTarget::Page(string_of(tag.as_slice())));
                    let mut shown: Vec<char> = vec!['#'];
                    let mut k: usize = 0;
                    while k < tag.len()
                        invariant
                            k <= tag.len(),
                            shown@ == seq!['#'] + tag@.take(k as int),
                        decreases tag.len() - k,
                    {
                        shown.push(tag[k]);
                        k += 1;
                        assert(shown@ =~= seq!['#'] + tag@.take(k as int));
                    }
                    assert(tag@.take(tag.len() as int) =~= tag@);
                    let ll = link_layer_exec(known, tag.as_slice());
                    push_text(d, shown.as_slice(), layers_with(outer, ll));
                    let next = chars_between(rest.as_slice(), te, rest.len());
                    assert(next@ =~= rest@.skip(te as int));
                    assert(deco_view(*d) == d2);
                    rest = next;
                } else {
                    if rest.len() > 0 {
                        push_text(d, rest.as_slice(), copy_layers(outer));
                    }
                    break;
                }
            },
            None => {
                if rest.len() > 0 {
                    push_text(d, rest.as_slice(), copy_layers(outer));
                }
                break;
            },
        }
    }
}

/// Plain text: each bare URL is a followable piece of its own (up to the
/// first whitespace or `]`), and the text between is read for tags.
pub open spec fn spec_plain(d: DecoModel, rest: Seq<char>, outer: Seq<Layer>, known: Map<Seq<char>, bool>) -> DecoModel
    decreases rest.len(),
{
    if rest.len() == 0 {
        d
    } else {
        match spec_find_url(rest) {
            Some(pos) => {
                let e = url_end(rest, pos);
                let url = rest.subrange(pos, e);
                if 0 <= pos < e <= rest.len() {
                    let d1 = if pos > 0 { spec_tags(d, rest.take(pos), outer, known) } else { d };
                    let d2 = with_piece(with_hit(d1, Goal::Url(url, url)), PieceModel::Text { text: url, layers: outer.push(Layer::Url) });
                    spec_plain(d2, rest.skip(e), outer, known)
                } else {
                    d
                }
            },
            None => spec_tags(d, rest, outer, known),
        }
    }
}

fn push_plain(d: &mut Decorated, text: &[char], outer: &Vec<Layer>, known: &LinkTruth)
    requires
        known.wf(),
    ensures
        deco_view(*final(d)) == spec_plain(deco_view(*old(d)), text@, outer@, known@),
{
    let ghost goal = spec_plain(deco_view(*d), text@, outer@, known@);
    let mut rest: Vec<char> = chars_between(text, 0, text.len());
    assert(rest@ =~= text@);
    while rest.len() > 0
        invariant
            known.wf(),
            spec_plain(deco_view(*d), rest@, outer@, known@) == goal,
        decreases rest.len(),
    {
        let ghost d0 = deco_view(*d);
        let ghost r0 = rest@;
        match find_url(rest.as_slice()) {
            Some(pos) => {
                proof {
                    lemma_url_end(r0, pos as int);
                }
                let e = url_end_exec(rest.as_slice(), pos);
                assert(r0[pos as int] == r0.subrange(pos as int, pos + 4)[0]);
                let _ = is_whitespace(rest[pos]);
                proof {
                    lemma_url_end(r0, pos + 1);
                }
                assert(e > pos);
                let ghost url_s = r0.subrange(pos as int, e as int);
                let ghost d1 = if pos > 0 { spec_tags(d0, r0.take(pos as int), outer@, known@) } else { d0 };
                let ghost d2 = with_piece(with_hit(d1, Goal::Url(url_s, url_s)), PieceModel::Text { text: url_s, layers: outer@.push(Layer::Url) });
                assert(spec_plain(d0, r0, outer@, known@) == spec_plain(d2, r0.skip(e as int), outer@, known@));
                if pos > 0 {
                    let head = chars_between(rest.as_slice(), 0, pos);
                    assert(head@ =~= r0.take(pos as int));
                    push_tags(d, head.as_slice(), outer, known);
                }
                let url = chars_between(rest.as_slice(), pos, e);
                push_hit(d, HitTarget::Url { label: string_of(url.as_slice()), url: string_of(url.as_slice()) });
                push_text(d, url.as_slice(), layers_with(outer, Layer::Url));
                let next = chars_between(rest.as_slice(), e, rest.len());
                assert(next@ =~= r0.skip(e as int));
                rest = next;
            },
            None => {
                push_tags(d, rest.as_slice(), outer, known);
                let empty: Vec<char> = Vec::new();
                assert(spec_plain(deco_view(*d), empty@, outer@, known@) == deco_view(*d));
                rest = empty;
            },
        }
    }
}

// ---------------------------------------------------------------------------
// Brackets, code spans, decorations
// ---------------------------------------------------------------------------

pub open spec fn has_char(s: Seq<char>, c: char) -> bool {
    find_char(s, c, 0) is Some
}

/// How many times `c` occurs in `s`.
pub open spec fn count_char(s: Seq<char>, c: char) -> nat
    decreases s.len(),
{
    if s.len() == 0 {
        0
    } else {
        count_char(s.drop_last(), c) + if s.last() == c { 1nat } else { 0nat }
    }
}

pub open spec fn icon_word() -> Seq<char> {
    seq!['.', 'i', 'c', 'o', 'n']
}

pub open spec fn gyazo_word() -> Seq<char> {
    seq!['g', 'y', 'a', 'z', 'o', '.', 'c', 'o', 'm']
}

/// The pieces concatenated: `s` with every `url` taken out.
pub open spec fn concat_all(parts: Seq<Seq<char>>) -> Seq<char> {
    join_with(parts, Seq::empty())
}

/// An uploaded file or a picture: labelled by its file name.
pub open spec fn file_or_image(url: Seq<char>) -> bool {
    (is_http(url) && contains_seq(url, "/files/"@) && !spec_looks_like_image(url)) || spec_looks_like_image(url)
}

/// The first code span (between two backticks) of `rest`.
pub open spec fn tick_span(rest: Seq<char>) -> Option<(int, int)> {
    match find_char(rest, '`', 0) {
        Some(a) => match find_char(rest, '`', a + 1) {
            Some(b) => Some((a, b)),
            None => None,
        },
        None => None,
    }
}

/// The first `[` of `rest` and the `]` that closes it, counting nesting.
pub open spec fn bracket_span(rest: Seq<char>) -> Option<(int, int)> {
    match find_char(rest, '[', 0) {
        Some(a) => match close_from(rest, a + 1, 1) {
            Some(c) => Some((a, c)),
            None => None,
        },
        None => None,
    }
}

/// The layers a star decoration puts on its text: the heading look of its
/// stars, italic for `/`.
pub open spec fn star_base(stars: nat, flags: Seq<char>) -> Seq<Layer> {
    (if stars > 0 { seq![Layer::Stars(stars as usize)] } else { Seq::empty() }) + (if has_char(flags, '/') {
        seq![Layer::Italic]
    } else {
        Seq::empty()
    })
}

/// ` *N` after a decoration of more than four stars (N at most ten).
pub open spec fn with_marker(d: DecoModel, stars: nat, outer: Seq<Layer>) -> DecoModel {
    if stars > 4 {
        with_piece(
            d,
            PieceModel::Text {
                text: seq![' ', '*'] + dec_str(if stars < 10 { stars } else { 10 }),
                layers: outer.push(Layer::Marker(stars as usize)),
            },
        )
    } else {
        d
    }
}

/// A line (or the inside of a decoration), decorated: the gyazo pictures
/// it names are collected first, then its notation is read left to right.
/// `None` where a picture's permalink cannot be cut out of the text.
pub open spec fn spec_inline(d: DecoModel, s: Seq<char>, outer: Seq<Layer>, known: Map<Seq<char>, bool>) -> Option<DecoModel>
    decreases s.len(), 1int,
{
    match spec_find_gyazo(s, d.images) {
        None => None,
        Some(imgs) => spec_inline_rest(with_images(d, imgs), s, outer, known),
    }
}

/// Whichever token starts first is taken first: a code span, or a bracket
/// (`[[x]]` is bold, anything else a bracket form); the text before it,
/// and the rest when no token is left, is plain.
pub open spec fn spec_inline_rest(d: DecoModel, rest: Seq<char>, outer: Seq<Layer>, known: Map<Seq<char>, bool>) -> Option<DecoModel>
    decreases rest.len(), 0int,
{
    if rest.len() == 0 {
        Some(d)
    } else {
        let t = tick_span(rest);
        let b = bracket_span(rest);
        if t is Some && (b is None || t->Some_0.0 < b->Some_0.0) {
            let ts = t->Some_0.0;
            let te = t->Some_0.1;
            if 0 <= ts < te < rest.len() {
                let d1 = spec_plain(d, rest.take(ts), outer, known);
                let d2 = with_piece(
                    d1,
                    PieceModel::Text { text: seq![' '] + rest.subrange(ts + 1, te) + seq![' '], layers: outer.push(Layer::Code) },
                );
                spec_inline_rest(d2, rest.skip(te + 1), outer, known)
            } else {
                None
            }
        } else if b is Some {
            let bs = b->Some_0.0;
            let close = b->Some_0.1;
            if 0 <= bs < close < rest.len() {
                let d1 = spec_plain(d, rest.take(bs), outer, known);
                let doubled = close - bs >= 3 && rest[bs + 1] == '[' && rest[close - 1] == ']';
                let d2 = if doubled {
                    spec_bold(d1, rest.subrange(bs + 2, close - 1), outer, known)
                } else {
                    spec_bracket(d1, rest.subrange(bs + 1, close), outer, known)
                };
                match d2 {
                    Some(d3) => spec_inline_rest(d3, rest.skip(close + 1), outer, known),
                    None => None,
                }
            } else {
                None
            }
        } else {
            Some(spec_plain(d, rest, outer, known))
        }
    }
}

/// `[[text]]`: the one-star heading look over the decorated inside; empty
/// double brackets are text. Pictures found inside are not kept.
pub open spec fn spec_bold(d: DecoModel, inner: Seq<char>, outer: Seq<Layer>, known: Map<Seq<char>, bool>) -> Option<DecoModel>
    decreases inner.len(), 2int,
{
    if spec_trim(inner).len() == 0 {
        Some(with_piece(d, raw(seq!['[', '['] + inner + seq![']', ']'], outer)))
    } else {
        match spec_inline(with_images(d, Seq::empty()), inner, outer.push(Layer::Stars(1)), known) {
            Some(r) => Some(with_images(r, d.images)),
            None => None,
        }
    }
}

/// The inside of one bracket: text when blank, a formula after `$`, a star
/// decoration, else an icon, a URL or a page link.
pub open spec fn spec_bracket(d: DecoModel, inner: Seq<char>, outer: Seq<Layer>, known: Map<Seq<char>, bool>) -> Option<DecoModel>
    decreases inner.len(), 2int,
{
    if spec_trim(inner).len() == 0 {
        Some(with_piece(d, raw(seq!['['] + inner + seq![']'], outer)))
    } else if inner.len() > 0 && inner[0] == '$' {
        let latex = inner.skip(1);
        Some(with_piece(d, PieceModel::Formula { latex, source: spec_trim(latex), layers: outer }))
    } else {
        match spec_strip_deco(inner) {
            Some(fb) => if fb.1.len() < inner.len() {
                spec_deco(d, fb.0, fb.1, outer, known)
            } else {
                None
            },
            None => spec_named(d, inner, outer, known),
        }
    }
}

/// A star decoration (`[* x]`, `[*/ x]`, `[- x]`, `[_ x]`): stars are a
/// heading level, `/` italic; an inside holding brackets is decorated
/// notation (a decorated link stays a link), else plain text that `-`
/// strikes and `_` underlines. More than four stars add their count.
pub open spec fn spec_deco(
    d: DecoModel, flags: Seq<char>, body: Seq<char>, outer: Seq<Layer>, known: Map<Seq<char>, bool>,
) -> Option<DecoModel>
    decreases body.len(), 3int,
{
    let stars = count_char(flags, '*');
    if has_char(body, '[') && has_char(body, ']') {
        match spec_inline(d, body, outer + star_base(stars, flags), known) {
            Some(r) => Some(with_marker(r, stars, outer)),
            None => None,
        }
    } else {
        let ls = outer + star_base(stars, flags) + (if has_char(flags, '-') {
            seq![Layer::Strike]
        } else {
            Seq::empty()
        }) + (if has_char(flags, '_') {
            seq![Layer::Underline]
        } else {
            Seq::empty()
        });
        Some(with_marker(with_piece(d, PieceModel::Text { text: body, layers: ls }), stars, outer))
    }
}

/// An icon (`[name.icon]`), a URL with an optional title around it, or a
/// page link. Following a URL leads to the URL whatever its label.
pub open spec fn spec_named(d: DecoModel, inner: Seq<char>, outer: Seq<Layer>, known: Map<Seq<char>, bool>) -> Option<DecoModel> {
    if contains_seq(inner, icon_word()) {
        let name = inner.take(find_from(inner, icon_word(), 0)->Some_0);
        Some(with_piece(d, PieceModel::Text { text: seq!['@'] + name, layers: outer.push(Layer::Icon) }))
    } else {
        match spec_find_url(inner) {
            Some(pos) => spec_url(d, inner, pos, outer),
            None => Some(
                with_piece(
                    with_hit(with_link(d, inner), Goal::Page(inner)),
                    PieceModel::Text { text: inner, layers: outer.push(link_layer(known, inner)) },
                ),
            ),
        }
    }
}

/// A URL in a bracket: labelled by the text around it, else by the file
/// name of an upload or a picture, else by itself; a gyazo link is also a
/// picture of the line.
pub open spec fn spec_url(d: DecoModel, inner: Seq<char>, pos: int, outer: Seq<Layer>) -> Option<DecoModel> {
    let url = inner.subrange(pos, url_end(inner, pos));
    let title = spec_trim(concat_all(split_pat(inner, url)));
    if contains_seq(url, gyazo_word()) {
        match spec_find_gyazo(url, d.images) {
            None => None,
            Some(imgs) => {
                let label = if title.len() == 0 { seq!['[', 'g', 'y', 'a', 'z', 'o', ']'] } else { title };
                Some(
                    with_piece(
                        with_hit(with_images(d, imgs), Goal::Url(label, url)),
                        PieceModel::Text { text: label, layers: outer.push(Layer::Gyazo) },
                    ),
                )
            },
        }
    } else {
        let label = if title.len() > 0 {
            title
        } else if file_or_image(url) {
            spec_file_name(url)
        } else {
            url
        };
        Some(with_piece(with_hit(d, Goal::Url(label, url)), PieceModel::Text { text: label, layers: outer.push(Layer::Url) }))
    }
}

// ---------------------------------------------------------------------------
// Decorating, step by step
// ---------------------------------------------------------------------------

fn collect_gyazo(d: &mut Decorated, s: &[char]) -> (ok: bool)
    ensures
        ok == spec_find_gyazo(s@, deco_view(*old(d)).images) is Some,
        ok ==> deco_view(*final(d)) == with_images(
            deco_view(*old(d)),
            spec_find_gyazo(s@, deco_view(*old(d)).images)->Some_0,
        ),
{
    let text = string_of(s);
    let ghost before = deco_view(*d);
    let ok = crate::inline::find_gyazo_checked(text.as_str(), &mut d.images);
    if ok {
        let ghost after = deco_view(*d);
        assert(after.pieces == before.pieces && after.links == before.links && after.hits == before.hits);
    }
    ok
}

fn has_char_exec(cs: &[char], c: char) -> (b: bool)
    ensures
        b == has_char(cs@, c),
{
    find_char_in(cs, c).is_some()
}

fn count_stars(cs: &[char]) -> (n: usize)
    ensures
        n == count_char(cs@, '*'),
        n <= cs.len(),
{
    let mut n: usize = 0;
    let mut i: usize = 0;
    while i < cs.len()
        invariant
            i <= cs.len(),
            n == count_char(cs@.take(i as int), '*'),
            n <= i,
        decreases cs.len() - i,
    {
        assert(cs@.take(i + 1).drop_last() =~= cs@.take(i as int));
        assert(cs@.take(i + 1).last() == cs@[i as int]);
        if cs[i] == '*' {
            n += 1;
        }
        i += 1;
    }
    assert(cs@.take(cs.len() as int) =~= cs@);
    n
}

fn push_marker(d: &mut Decorated, stars: usize, outer: &Vec<Layer>)
    ensures
        deco_view(*final(d)) == with_marker(deco_view(*old(d)), stars as nat, outer@),
{
    if stars > 4 {
        let shown: u128 = if stars < 10 { stars as u128 } else { 10 };
        let num = to_decimal(shown);
        let mut text: Vec<char> = vec![' ', '*'];
        let digits = chars_of(num.as_str());
        let mut k: usize = 0;
        while k < digits.len()
            invariant
                k <= digits.len(),
                text@ == seq![' ', '*'] + digits@.take(k as int),
            decreases digits.len() - k,
        {
            text.push(digits[k]);
            k += 1;
            assert(text@ =~= seq![' ', '*'] + digits@.take(k as int));
        }
        assert(digits@.take(digits.len() as int) =~= digits@);
        push_text(d, text.as_slice(), layers_with(outer, Layer::Marker(stars)));
    }
}

fn surround(open: &[char], mid: &[char], close: &[char]) -> (r: Vec<char>)
    ensures
        r@ == open@ + mid@ + close@,
{
    let mut r = chars_between(open, 0, open.len());
    let mut k: usize = 0;
    while k < mid.len()
        invariant
            k <= mid.len(),
            r@ == open@ + mid@.take(k as int),
        decreases mid.len() - k,
    {
        r.push(mid[k]);
        k += 1;
        assert(r@ =~= open@ + mid@.take(k as int));
    }
    let mut j: usize = 0;
    while j < close.len()
        invariant
            j <= close.len(),
            r@ == open@ + mid@ + close@.take(j as int),
        decreases close.len() - j,
    {
        r.push(close[j]);
        j += 1;
        assert(r@ =~= open@ + mid@ + close@.take(j as int));
    }
    assert(open@ + mid@.take(mid.len() as int) =~= open@ + mid@);
    assert(close@.take(close.len() as int) =~= close@);
    r
}

pub(crate) fn inline_exec(d: &mut Decorated, s: &[char], outer: &Vec<Layer>, known: &LinkTruth) -> (ok: bool)
    requires
        known.wf(),
    ensures
        ok == spec_inline(deco_view(*old(d)), s@, outer@, known@) is Some,
        ok ==> deco_view(*final(d)) == spec_inline(deco_view(*old(d)), s@, outer@, known@)->Some_0,
    decreases s.len(), 2int,
{
    if !collect_gyazo(d, s) {
        return false;
    }
    inline_rest_exec(d, s, outer, known)
}

fn next_tick(rest: &[char]) -> (r: Option<(usize, usize)>)
    ensures
        match r {
            Some(p) => tick_span(rest@) == Some((p.0 as int, p.1 as int)) && p.0 < p.1 < rest.len(),
            None => tick_span(rest@) is None,
        },
{
    let t1 = find_char_in(rest, '`');
    proof {
        crate::inline::lemma_find_char(rest@, '`', 0);
    }
    match t1 {
        Some(a) => {
            let t2 = crate::inline::find_char_exec(rest, '`', a + 1);
            proof {
                crate::inline::lemma_find_char(rest@, '`', a + 1);
            }
            match t2 {
                Some(b) => Some((a, b)),
                None => None,
            }
        },
        None => None,
    }
}

fn next_bracket(rest: &[char]) -> (r: Option<(usize, usize)>)
    ensures
        match r {
            Some(p) => bracket_span(rest@) == Some((p.0 as int, p.1 as int)) && p.0 < p.1 < rest.len(),
            None => bracket_span(rest@) is None,
        },
{
    let b1 = find_char_in(rest, '[');
    proof {
        crate::inline::lemma_find_char(rest@, '[', 0);
    }
    match b1 {
        Some(a) => {
            proof {
                crate::inline::lemma_close_from(rest@, a + 1, 1);
            }
            match crate::inline::close_at(rest, a) {
                Some(c) => Some((a, c)),
                None => None,
            }
        },
        None => None,
    }
}

proof fn lemma_rest_tick(d0: DecoModel, r0: Seq<char>, outer: Seq<Layer>, known: Map<Seq<char>, bool>, ts: int, te: int)
    requires
        r0.len() > 0,
        tick_span(r0) == Some((ts, te)),
        bracket_span(r0) is None || ts < bracket_span(r0)->Some_0.0,
        0 <= ts < te < r0.len(),
    ensures
        spec_inline_rest(d0, r0, outer, known) == spec_inline_rest(
            with_piece(
                spec_plain(d0, r0.take(ts), outer, known),
                PieceModel::Text { text: seq![' '] + r0.subrange(ts + 1, te) + seq![' '], layers: outer.push(Layer::Code) },
            ),
            r0.skip(te + 1),
            outer,
            known,
        ),
{
}

proof fn lemma_rest_bracket(d0: DecoModel, r0: Seq<char>, outer: Seq<Layer>, known: Map<Seq<char>, bool>, bs: int, close: int)
    requires
        r0.len() > 0,
        bracket_span(r0) == Some((bs, close)),
        !(tick_span(r0) is Some && tick_span(r0)->Some_0.0 < bs),
        0 <= bs < close < r0.len(),
    ensures
        spec_inline_rest(d0, r0, outer, known) == ({
            let d1 = spec_plain(d0, r0.take(bs), outer, known);
            let doubled = close >= bs + 3 && r0[bs + 1] == '[' && r0[close - 1] == ']';
            let d2 = if doubled {
                spec_bold(d1, r0.subrange(bs + 2, close - 1), outer, known)
            } else {
                spec_bracket(d1, r0.subrange(bs + 1, close), outer, known)
            };
            match d2 {
                Some(d3) => spec_inline_rest(d3, r0.skip(close + 1), outer, known),
                None => None,
            }
        }),
{
}

fn code_step(d: &mut Decorated, rest: &Vec<char>, ts: usize, te: usize, outer: &Vec<Layer>, known: &LinkTruth)
    requires
        known.wf(),
        ts < te < rest.len(),
    ensures
        deco_view(*final(d)) == with_piece(
            spec_plain(deco_view(*old(d)), rest@.take(ts as int), outer@, known@),
            PieceModel::Text { text: seq![' '] + rest@.subrange(ts + 1, te as int) + seq![' '], layers: outer@.push(Layer::Code) },
        ),
{
    let head = chars_between(rest.as_slice(), 0, ts);
    assert(head@ =~= rest@.take(ts as int));
    push_plain(d, head.as_slice(), outer, known);
    let code = chars_between(rest.as_slice(), ts + 1, te);
    let shown = surround(&[' '], code.as_slice(), &[' ']);
    assert(shown@ =~= seq![' '] + rest@.subrange(ts + 1, te as int) + seq![' ']);
    push_text(d, shown.as_slice(), layers_with(outer, Layer::Code));
}

fn bracket_step(d: &mut Decorated, rest: &Vec<char>, bs: usize, close: usize, outer: &Vec<Layer>, known: &LinkTruth) -> (ok: bool)
    requires
        known.wf(),
        bs < close < rest.len(),
    ensures
        ({
            let d1 = spec_plain(deco_view(*old(d)), rest@.take(bs as int), outer@, known@);
            let doubled = close >= bs + 3 && rest@[bs + 1] == '[' && rest@[close - 1] == ']';
            let d2 = if doubled {
                spec_bold(d1, rest@.subrange(bs + 2, close - 1), outer@, known@)
            } else {
                spec_bracket(d1, rest@.subrange(bs + 1, close as int), outer@, known@)
            };
            &&& ok == d2 is Some
            &&& ok ==> deco_view(*final(d)) == d2->Some_0
        }),
    decreases rest.len(), 0int,
{
    let head = chars_between(rest.as_slice(), 0, bs);
    assert(head@ =~= rest@.take(bs as int));
    push_plain(d, head.as_slice(), outer, known);
    let doubled = close - bs >= 3 && rest[bs + 1] == '[' && rest[close - 1] == ']';
    if doubled {
        let inner = chars_between(rest.as_slice(), bs + 2, close - 1);
        decorate_bold(d, inner.as_slice(), outer, known)
    } else {
        let inner = chars_between(rest.as_slice(), bs + 1, close);
        decorate_bracket(d, inner.as_slice(), outer, known)
    }
}

fn inline_rest_exec(d: &mut Decorated, s: &[char], outer: &Vec<Layer>, known: &LinkTruth) -> (ok: bool)
    requires
        known.wf(),
    ensures
        ok == spec_inline_rest(deco_view(*old(d)), s@, outer@, known@) is Some,
        ok ==> deco_view(*final(d)) == spec_inline_rest(deco_view(*old(d)), s@, outer@, known@)->Some_0,
    decreases s.len(), 1int,
{
    let ghost goal = spec_inline_rest(deco_view(*d), s@, outer@, known@);
    let mut rest: Vec<char> = chars_between(s, 0, s.len());
    assert(rest@ =~= s@);
    loop
        invariant_except_break
            spec_inline_rest(deco_view(*d), rest@, outer@, known@) == goal,
        invariant
            known.wf(),
            rest.len() <= s.len(),
            goal == spec_inline_rest(deco_view(*old(d)), s@, outer@, known@),
        ensures
            goal == Some(deco_view(*d)),
        decreases rest.len(),
    {
        if rest.len() == 0 {
            break;
        }
        let ghost d0 = deco_view(*d);
        let ghost r0 = rest@;
        let n = rest.len();
        let tick = next_tick(rest.as_slice());
        let br = next_bracket(rest.as_slice());
        let take_tick = match (tick, br) {
            (Some(t), Some(b)) => t.0 < b.0,
            (Some(_), None) => true,
            _ => false,
        };
        if take_tick {
            let (ts, te) = tick.unwrap();
            proof {
                lemma_rest_tick(d0, r0, outer@, known@, ts as int, te as int);
            }
            code_step(d, &rest, ts, te, outer, known);
            let next = chars_between(rest.as_slice(), te + 1, n);
            assert(next@ =~= r0.skip(te + 1));
            rest = next;
        } else if br.is_some() {
            let (bs, close) = br.unwrap();
            proof {
                lemma_rest_bracket(d0, r0, outer@, known@, bs as int, close as int);
            }
            let ok = bracket_step(d, &rest, bs, close, outer, known);
            if !ok {
                return false;
            }
            let next = chars_between(rest.as_slice(), close + 1, n);
            assert(next@ =~= r0.skip(close + 1));
            rest = next;
        } else {
            assert(spec_inline_rest(d0, r0, outer@, known@) == Some(spec_plain(d0, r0, outer@, known@)));
            push_plain(d, rest.as_slice(), outer, known);
            break;
        }
    }
    true
}

fn decorate_bold(d: &mut Decorated, inner: &[char], outer: &Vec<Layer>, known: &LinkTruth) -> (ok: bool)
    requires
        known.wf(),
    ensures
        ok == spec_bold(deco_view(*old(d)), inner@, outer@, known@) is Some,
        ok ==> deco_view(*final(d)) == spec_bold(deco_view(*old(d)), inner@, outer@, known@)->Some_0,
    decreases inner.len(), 3int,
{
    let t = trim(string_of(inner).as_str());
    if t.unicode_len() == 0 {
        let shown = surround(&['[', '['], inner, &[']', ']']);
        push_text(d, shown.as_slice(), copy_layers(outer));
        return true;
    }
    let ghost d0 = deco_view(*d);
    let mut saved: Vec<String> = Vec::new();
    std::mem::swap(&mut saved, &mut d.images);
    assert(saved.deep_view() == d0.images);
    assert(deco_view(*d) == with_images(d0, Seq::empty())) by {
        assert(deco_view(*d).images =~= Seq::<Seq<char>>::empty());
    }
    let ok = inline_exec(d, inner, &layers_with(outer, Layer::Stars(1)), known);
    if !ok {
        return false;
    }
    let ghost r = deco_view(*d);
    d.images = saved;
    assert(deco_view(*d) == with_images(r, d0.images)) by {
        assert(deco_view(*d).pieces == r.pieces);
    }
    true
}

fn file_or_image_exec(url: &[char]) -> (b: bool)
    ensures
        b == file_or_image(url@),
{
    let u = string_of(url);
    crate::inline::is_scrapbox_file_url(u.as_str()) || crate::inline::looks_like_image_url(u.as_str())
}

fn decorate_bracket(d: &mut Decorated, inner: &[char], outer: &Vec<Layer>, known: &LinkTruth) -> (ok: bool)
    requires
        known.wf(),
    ensures
        ok == spec_bracket(deco_view(*old(d)), inner@, outer@, known@) is Some,
        ok ==> deco_view(*final(d)) == spec_bracket(deco_view(*old(d)), inner@, outer@, known@)->Some_0,
    decreases inner.len(), 3int,
{
    let t = trim(string_of(inner).as_str());
    if t.unicode_len() == 0 {
        let shown = surround(&['['], inner, &[']']);
        assert(shown@ =~= seq!['['] + inner@ + seq![']']);
        push_text(d, shown.as_slice(), copy_layers(outer));
        return true;
    }
    if inner.len() > 0 && inner[0] == '$' {
        let latex = chars_between(inner, 1, inner.len());
        assert(latex@ =~= inner@.skip(1));
        let source = trim(string_of(latex.as_slice()).as_str());
        push_piece(d, Piece::Formula { latex: string_of(latex.as_slice()), source, layers: copy_layers(outer) });
        return true;
    }
    match strip_deco_prefix(inner) {
        Some((flags, body)) => {
            proof {
                lemma_flags_end(inner@, 0);
            }
            assert(body@.len() < inner@.len());
            deco_exec(d, flags.as_slice(), body.as_slice(), outer, known)
        },
        None => named_exec(d, inner, outer, known),
    }
}

fn deco_exec(d: &mut Decorated, flags: &[char], body: &[char], outer: &Vec<Layer>, known: &LinkTruth) -> (ok: bool)
    requires
        known.wf(),
    ensures
        ok == spec_deco(deco_view(*old(d)), flags@, body@, outer@, known@) is Some,
        ok ==> deco_view(*final(d)) == spec_deco(deco_view(*old(d)), flags@, body@, outer@, known@)->Some_0,
    decreases body.len(), 4int,
{
    let stars = count_stars(flags);
    let mut base = copy_layers(outer);
    if stars > 0 {
        base.push(Layer::Stars(stars));
    }
    if has_char_exec(flags, '/') {
        base.push(Layer::Italic);
    }
    assert(base@ =~= outer@ + star_base(stars as nat, flags@));
    if has_char_exec(body, '[') && has_char_exec(body, ']') {
        let ok = inline_exec(d, body, &base, known);
        if !ok {
            return false;
        }
        push_marker(d, stars, outer);
        true
    } else {
        let mut ls = base;
        if has_char_exec(flags, '-') {
            ls.push(Layer::Strike);
        }
        if has_char_exec(flags, '_') {
            ls.push(Layer::Underline);
        }
        assert(ls@ =~= outer@ + star_base(stars as nat, flags@) + (if has_char(flags@, '-') {
            seq![Layer::Strike]
        } else {
            Seq::empty()
        }) + (if has_char(flags@, '_') {
            seq![Layer::Underline]
        } else {
            Seq::empty()
        }));
        push_text(d, body, ls);
        push_marker(d, stars, outer);
        true
    }
}

fn named_exec(d: &mut Decorated, inner: &[char], outer: &Vec<Layer>, known: &LinkTruth) -> (ok: bool)
    requires
        known.wf(),
    ensures
        ok == spec_named(deco_view(*old(d)), inner@, outer@, known@) is Some,
        ok ==> deco_view(*final(d)) == spec_named(deco_view(*old(d)), inner@, outer@, known@)->Some_0,
{
    let icon: Vec<char> = vec!['.', 'i', 'c', 'o', 'n'];
    assert(icon@ =~= icon_word());
    match find_chars(inner, icon.as_slice(), 0) {
        Some(k) => {
            proof {
                lemma_find_from_bounds(inner@, icon_word(), 0);
            }
            let name = chars_between(inner, 0, k);
            assert(name@ =~= inner@.take(k as int));
            let shown = surround(&['@'], name.as_slice(), &[]);
            assert(shown@ =~= seq!['@'] + name@);
            push_text(d, shown.as_slice(), layers_with(outer, Layer::Icon));
            true
        },
        None => {
            match find_url(inner) {
                Some(pos) => url_exec(d, inner, pos, outer),
                None => {
                    push_link(d, inner);
                    push_hit(d, HitTarget::Page(string_of(inner)));
                    let ll = link_layer_exec(known, inner);
                    push_text(d, inner, layers_with(outer, ll));
                    true
                },
            }
        },
    }
}

fn url_exec(d: &mut Decorated, inner: &[char], pos: usize, outer: &Vec<Layer>) -> (ok: bool)
    requires
        pos + 7 <= inner.len(),
        inner@.subrange(pos as int, pos + 4) == seq!['h', 't', 't', 'p'],
    ensures
        ok == spec_url(deco_view(*old(d)), inner@, pos as int, outer@) is Some,
        ok ==> deco_view(*final(d)) == spec_url(deco_view(*old(d)), inner@, pos as int, outer@)->Some_0,
{
    proof {
        lemma_url_end(inner@, pos as int);
    }
    let e = url_end_exec(inner, pos);
    assert(inner@[pos as int] == inner@.subrange(pos as int, pos + 4)[0]);
    let _ = is_whitespace(inner[pos]);
    proof {
        lemma_url_end(inner@, pos + 1);
    }
    let url = chars_between(inner, pos, e);
    let whole = string_of(inner);
    let parts = crate::math::split_pattern(whole.as_str(), url.as_slice());
    let nothing = String::new();
    let joined = join_strs(parts.as_slice(), nothing.as_str());
    let title = trim(joined.as_str());
    let title_cs = chars_of(title.as_str());
    let gw: Vec<char> = vec!['g', 'y', 'a', 'z', 'o', '.', 'c', 'o', 'm'];
    assert(gw@ =~= gyazo_word());
    if find_chars(url.as_slice(), gw.as_slice(), 0).is_some() {
        if !collect_gyazo(d, url.as_slice()) {
            return false;
        }
        let label: Vec<char> = if title_cs.len() == 0 {
            let g: Vec<char> = vec!['[', 'g', 'y', 'a', 'z', 'o', ']'];
            g
        } else {
            title_cs
        };
        push_hit(d, HitTarget::Url { label: string_of(label.as_slice()), url: string_of(url.as_slice()) });
        push_text(d, label.as_slice(), layers_with(outer, Layer::Gyazo));
        true
    } else {
        let label: Vec<char> = if title_cs.len() > 0 {
            title_cs
        } else if file_or_image_exec(url.as_slice()) {
            let u = string_of(url.as_slice());
            chars_of(crate::inline::file_name_of_url(u.as_str()))
        } else {
            chars_between(url.as_slice(), 0, url.len())
        };
        assert(url@.subrange(0, url@.len() as int) =~= url@);
        push_hit(d, HitTarget::Url { label: string_of(label.as_slice()), url: string_of(url.as_slice()) });
        push_text(d, label.as_slice(), layers_with(outer, Layer::Url));
        true
    }
}

// ---------------------------------------------------------------------------
// A line, decorated
// ---------------------------------------------------------------------------

/// Nothing yet on the line; the page's links and pictures so far.
pub open spec fn start_model(links: Seq<Seq<char>>, images: Seq<Seq<char>>) -> DecoModel {
    DecoModel { pieces: Seq::empty(), links, images, hits: Seq::empty() }
}

/// What decorating `s` gives, with the page's links and pictures so far:
/// `None` where a picture's permalink cannot be cut out of the text.
pub open spec fn spec_decorate(s: Seq<char>, known: Map<Seq<char>, bool>, links: Seq<Seq<char>>, images: Seq<Seq<char>>) -> Option<DecoModel> {
    spec_inline(start_model(links, images), s, Seq::empty(), known)
}

/// Decorate one line into pieces, adding the pages it links to and the
/// gyazo pictures it names to `links` and `images`; a hit names its piece
/// by its place on this line. `None` exactly where a picture's permalink
/// cannot be cut out of the text: a multi-byte whitespace character right
/// before a gyazo subdomain.
pub fn decorate_inline_checked(s: &str, known: &LinkTruth, links: Vec<String>, images: Vec<String>) -> (r: Option<Decorated>)
    requires
        known.wf(),
    ensures
        match r {
            Some(d) => spec_decorate(s@, known@, links.deep_view(), images.deep_view()) == Some(deco_view(d)),
            None => spec_decorate(s@, known@, links.deep_view(), images.deep_view()) is None,
        },
{
    let ghost lv = links.deep_view();
    let ghost iv = images.deep_view();
    let mut d = Decorated { pieces: Vec::new(), links, images, hits: Vec::new() };
    assert(deco_view(d) =~= start_model(lv, iv)) by {
        assert(deco_view(d).pieces =~= Seq::<PieceModel>::empty());
        assert(deco_view(d).hits =~= Seq::<(int, Goal)>::empty());
    }
    let cs = chars_of(s);
    if inline_exec(&mut d, cs.as_slice(), &Vec::new(), known) {
        Some(d)
    } else {
        None
    }
}

/// Decorate one line (see `decorate_inline_checked`), for a line whose
/// pictures can all be cut out of it.
pub fn decorate_inline(s: &str, known: &LinkTruth, links: Vec<String>, images: Vec<String>) -> (d: Decorated)
    requires
        known.wf(),
        spec_decorate(s@, known@, links.deep_view(), images.deep_view()) is Some,
    ensures
        spec_decorate(s@, known@, links.deep_view(), images.deep_view()) == Some(deco_view(d)),
{
    match decorate_inline_checked(s, known, links, images) {
        Some(d) => d,
        None => {
            proof {
                assert(false);
            }
            Decorated { pieces: Vec::new(), links: Vec::new(), images: Vec::new(), hits: Vec::new() }
        },
    }
}

// ---------------------------------------------------------------------------
// Heading lines
// ---------------------------------------------------------------------------

/// The first position from `k` on that holds no `*`.
pub open spec fn stars_end(s: Seq<char>, k: int) -> Option<int>
    decreases s.len() - k,
{
    if k < 0 || k >= s.len() {
        None
    } else if s[k] != '*' {
        Some(k)
    } else {
        stars_end(s, k + 1)
    }
}

proof fn lemma_stars_end(s: Seq<char>, k: int)
    requires
        0 <= k,
    ensures
        stars_end(s, k) is Some ==> k <= stars_end(s, k)->Some_0 < s.len(),
    decreases s.len() - k,
{
    if k < s.len() && s[k] == '*' {
        lemma_stars_end(s, k + 1);
    }
}

/// A line that is one star bracket and nothing after it (`[** Title]`):
/// its stars and its text.
pub open spec fn spec_heading(body: Seq<char>) -> Option<(int, Seq<char>)> {
    let t = spec_trim_end(body);
    match find_char(body, '[', 0) {
        None => None,
        Some(o) => match close_from(t, o + 1, 1) {
            None => None,
            Some(c) => if c + 1 != t.len() || !(o < c) {
                None
            } else {
                let inner = t.subrange(o + 1, c);
                match stars_end(inner, 0) {
                    None => None,
                    Some(st) => if st == 0 || inner[st] != ' ' {
                        None
                    } else {
                        Some((st, inner.skip(st + 1)))
                    },
                }
            },
        },
    }
}

proof fn lemma_trail_end_keeps(s: Seq<char>, e: int, o: int)
    requires
        0 <= o < e <= s.len(),
        !unicode_whitespace(s[o]),
    ensures
        o < trail_end(s, 0, e),
    decreases e,
{
    if unicode_whitespace(s[e - 1]) {
        lemma_trail_end_keeps(s, e - 1, o);
    }
}

/// A line that is one star bracket and nothing after it: its stars and its
/// text (see `spec_heading`).
pub(crate) fn heading_text(body: &str) -> (r: Option<(usize, Vec<char>)>)
    ensures
        match r {
            Some(p) => spec_heading(body@) == Some((p.0 as int, p.1@)),
            None => spec_heading(body@) is None,
        },
{
    let cs = chars_of(body);
    let t = crate::text::trim_end(body);
    let tc = chars_of(t.as_str());
    let o = match find_char_in(cs.as_slice(), '[') {
        Some(o) => o,
        None => {
            return None;
        },
    };
    proof {
        crate::inline::lemma_find_char(cs@, '[', 0);
        crate::text::lemma_trail_end_bounds(cs@, 0, cs@.len() as int);
    }
    let _ = is_whitespace(cs[o]);
    proof {
        lemma_trail_end_keeps(cs@, cs@.len() as int, o as int);
    }
    assert(tc@[o as int] == cs@[o as int]);
    proof {
        crate::inline::lemma_close_from(tc@, o + 1, 1);
    }
    let c = match crate::inline::close_at(tc.as_slice(), o) {
        Some(c) => c,
        None => {
            return None;
        },
    };
    if c + 1 != tc.len() {
        return None;
    }
    let inner = chars_between(tc.as_slice(), o + 1, c);
    proof {
        lemma_stars_end(inner@, 0);
    }
    let mut st: usize = 0;
    while st < inner.len() && inner[st] == '*'
        invariant
            st <= inner.len(),
            stars_end(inner@, 0) == stars_end(inner@, st as int),
        decreases inner.len() - st,
    {
        st += 1;
    }
    if st >= inner.len() || st == 0 || inner[st] != ' ' {
        return None;
    }
    let text = chars_between(inner.as_slice(), st + 1, inner.len());
    assert(text@ =~= inner@.skip(st + 1));
    Some((st, text))
}

/// A heading line: its text decorated under the heading look of its
/// stars (a heading is still notation inside: a link in it stays a link).
/// `None` for a line that is not one star bracket.
pub fn parse_heading(body: &str, known: &LinkTruth, links: Vec<String>, images: Vec<String>) -> (r: Option<Decorated>)
    requires
        known.wf(),
        spec_heading(body@) is Some ==> spec_inline(
            start_model(links.deep_view(), images.deep_view()),
            spec_heading(body@)->Some_0.1,
            seq![Layer::Stars(spec_heading(body@)->Some_0.0 as usize)],
            known@,
        ) is Some,
    ensures
        match r {
            None => spec_heading(body@) is None,
            Some(d) => spec_heading(body@) is Some && Some(deco_view(d)) == spec_inline(
                start_model(links.deep_view(), images.deep_view()),
                spec_heading(body@)->Some_0.1,
                seq![Layer::Stars(spec_heading(body@)->Some_0.0 as usize)],
                known@,
            ),
        },
{
    let (st, text) = match heading_text(body) {
        Some(p) => p,
        None => {
            return None;
        },
    };
    let ghost lv = links.deep_view();
    let ghost iv = images.deep_view();
    let mut d = Decorated { pieces: Vec::new(), links, images, hits: Vec::new() };
    assert(deco_view(d) =~= start_model(lv, iv)) by {
        assert(deco_view(d).pieces =~= Seq::<PieceModel>::empty());
        assert(deco_view(d).hits =~= Seq::<(int, Goal)>::empty());
    }
    let outer: Vec<Layer> = vec![Layer::Stars(st)];
    assert(outer@ =~= seq![Layer::Stars(st)]);
    let ok = inline_exec(&mut d, text.as_slice(), &outer, known);
    assert(ok);
    Some(d)
}

// ---------------------------------------------------------------------------
// Every hit names a piece
// ---------------------------------------------------------------------------

/// Every hit names a piece of the line.
pub open spec fn hits_in_pieces(d: DecoModel) -> bool {
    forall|i: int| 0 <= i < d.hits.len() ==> 0 <= (#[trigger] d.hits[i]).0 < d.pieces.len()
}

proof fn lemma_piece_keeps(d: DecoModel, p: PieceModel)
    requires
        hits_in_pieces(d),
    ensures
        hits_in_pieces(with_piece(d, p)),
{
}

proof fn lemma_hit_piece_keeps(d: DecoModel, g: Goal, p: PieceModel)
    requires
        hits_in_pieces(d),
    ensures
        hits_in_pieces(with_piece(with_hit(d, g), p)),
{
    let d2 = with_piece(with_hit(d, g), p);
    assert forall|i: int| 0 <= i < d2.hits.len() implies 0 <= (#[trigger] d2.hits[i]).0 < d2.pieces.len() by {
        if i < d.hits.len() {
            assert(d2.hits[i] == d.hits[i]);
        }
    }
}

proof fn lemma_tags_hits(d: DecoModel, rest: Seq<char>, outer: Seq<Layer>, known: Map<Seq<char>, bool>)
    requires
        hits_in_pieces(d),
    ensures
        hits_in_pieces(spec_tags(d, rest, outer, known)),
    decreases rest.len(),
{
    match find_char(rest, '#', 0) {
        Some(pos) => {
            let te = tag_end(rest, pos + 1);
            let tag = rest.subrange(pos + 1, te);
            if 0 <= pos < rest.len() && pos + 1 <= te <= rest.len() && (pos == 0 || unicode_whitespace(rest[pos - 1]))
                && tag.len() > 0 {
                let d1 = if pos > 0 { with_piece(d, raw(rest.take(pos), outer)) } else { d };
                let dl = with_link(d1, tag);
                let d2 = with_piece(
                    with_hit(dl, Goal::Page(tag)),
                    PieceModel::Text { text: seq!['#'] + tag, layers: outer.push(link_layer(known, tag)) },
                );
                lemma_hit_piece_keeps(dl, Goal::Page(tag), PieceModel::Text { text: seq!['#'] + tag, layers: outer.push(link_layer(known, tag)) });
                lemma_tags_hits(d2, rest.skip(te), outer, known);
            }
        },
        None => {},
    }
}

proof fn lemma_plain_hits(d: DecoModel, rest: Seq<char>, outer: Seq<Layer>, known: Map<Seq<char>, bool>)
    requires
        hits_in_pieces(d),
    ensures
        hits_in_pieces(spec_plain(d, rest, outer, known)),
    decreases rest.len(),
{
    if rest.len() > 0 {
        match spec_find_url(rest) {
            Some(pos) => {
                let e = url_end(rest, pos);
                let url = rest.subrange(pos, e);
                if 0 <= pos < e <= rest.len() {
                    if pos > 0 {
                        lemma_tags_hits(d, rest.take(pos), outer, known);
                    }
                    let d1 = if pos > 0 { spec_tags(d, rest.take(pos), outer, known) } else { d };
                    let pm = PieceModel::Text { text: url, layers: outer.push(Layer::Url) };
                    lemma_hit_piece_keeps(d1, Goal::Url(url, url), pm);
                    lemma_plain_hits(with_piece(with_hit(d1, Goal::Url(url, url)), pm), rest.skip(e), outer, known);
                }
            },
            None => {
                lemma_tags_hits(d, rest, outer, known);
            },
        }
    }
}

pub(crate) proof fn lemma_inline_hits(d: DecoModel, s: Seq<char>, outer: Seq<Layer>, known: Map<Seq<char>, bool>)
    requires
        hits_in_pieces(d),
    ensures
        spec_inline(d, s, outer, known) is Some ==> hits_in_pieces(spec_inline(d, s, outer, known)->Some_0),
    decreases s.len(), 1int,
{
    match spec_find_gyazo(s, d.images) {
        None => {},
        Some(imgs) => {
            lemma_rest_hits(with_images(d, imgs), s, outer, known);
        },
    }
}

proof fn lemma_rest_hits(d: DecoModel, rest: Seq<char>, outer: Seq<Layer>, known: Map<Seq<char>, bool>)
    requires
        hits_in_pieces(d),
    ensures
        spec_inline_rest(d, rest, outer, known) is Some ==> hits_in_pieces(spec_inline_rest(d, rest, outer, known)->Some_0),
    decreases rest.len(), 0int,
{
    if rest.len() > 0 {
        let t = tick_span(rest);
        let b = bracket_span(rest);
        if t is Some && (b is None || t->Some_0.0 < b->Some_0.0) {
            let ts = t->Some_0.0;
            let te = t->Some_0.1;
            if 0 <= ts < te < rest.len() {
                lemma_plain_hits(d, rest.take(ts), outer, known);
                let d1 = spec_plain(d, rest.take(ts), outer, known);
                let pm = PieceModel::Text { text: seq![' '] + rest.subrange(ts + 1, te) + seq![' '], layers: outer.push(Layer::Code) };
                lemma_piece_keeps(d1, pm);
                lemma_rest_hits(with_piece(d1, pm), rest.skip(te + 1), outer, known);
            }
        } else if b is Some {
            let bs = b->Some_0.0;
            let close = b->Some_0.1;
            if 0 <= bs < close < rest.len() {
                lemma_plain_hits(d, rest.take(bs), outer, known);
                let d1 = spec_plain(d, rest.take(bs), outer, known);
                let doubled = close >= bs + 3 && rest[bs + 1] == '[' && rest[close - 1] == ']';
                if doubled {
                    lemma_bold_hits(d1, rest.subrange(bs + 2, close - 1), outer, known);
                } else {
                    lemma_bracket_hits(d1, rest.subrange(bs + 1, close), outer, known);
                }
                let d2 = if doubled {
                    spec_bold(d1, rest.subrange(bs + 2, close - 1), outer, known)
                } else {
                    spec_bracket(d1, rest.subrange(bs + 1, close), outer, known)
                };
                match d2 {
                    Some(d3) => {
                        lemma_rest_hits(d3, rest.skip(close + 1), outer, known);
                    },
                    None => {},
                }
            }
        } else {
            lemma_plain_hits(d, rest, outer, known);
        }
    }
}

proof fn lemma_bold_hits(d: DecoModel, inner: Seq<char>, outer: Seq<Layer>, known: Map<Seq<char>, bool>)
    requires
        hits_in_pieces(d),
    ensures
        spec_bold(d, inner, outer, known) is Some ==> hits_in_pieces(spec_bold(d, inner, outer, known)->Some_0),
    decreases inner.len(), 2int,
{
    if spec_trim(inner).len() > 0 {
        lemma_inline_hits(with_images(d, Seq::empty()), inner, outer.push(Layer::Stars(1)), known);
    }
}

proof fn lemma_marker_hits(d: DecoModel, stars: nat, outer: Seq<Layer>)
    requires
        hits_in_pieces(d),
    ensures
        hits_in_pieces(with_marker(d, stars, outer)),
{
}

proof fn lemma_bracket_hits(d: DecoModel, inner: Seq<char>, outer: Seq<Layer>, known: Map<Seq<char>, bool>)
    requires
        hits_in_pieces(d),
    ensures
        spec_bracket(d, inner, outer, known) is Some ==> hits_in_pieces(spec_bracket(d, inner, outer, known)->Some_0),
    decreases inner.len(), 2int,
{
    if spec_trim(inner).len() > 0 && !(inner.len() > 0 && inner[0] == '$') {
        match spec_strip_deco(inner) {
            Some(fb) => if fb.1.len() < inner.len() {
                lemma_deco_hits(d, fb.0, fb.1, outer, known);
            },
            None => {
                lemma_named_hits(d, inner, outer, known);
            },
        }
    }
}

proof fn lemma_deco_hits(
    d: DecoModel, flags: Seq<char>, body: Seq<char>, outer: Seq<Layer>, known: Map<Seq<char>, bool>,
)
    requires
        hits_in_pieces(d),
    ensures
        spec_deco(d, flags, body, outer, known) is Some ==> hits_in_pieces(spec_deco(d, flags, body, outer, known)->Some_0),
    decreases body.len(), 3int,
{
    let stars = count_char(flags, '*');
    if has_char(body, '[') && has_char(body, ']') {
        lemma_inline_hits(d, body, outer + star_base(stars, flags), known);
        match spec_inline(d, body, outer + star_base(stars, flags), known) {
            Some(r) => lemma_marker_hits(r, stars, outer),
            None => {},
        }
    }
}

proof fn lemma_named_hits(d: DecoModel, inner: Seq<char>, outer: Seq<Layer>, known: Map<Seq<char>, bool>)
    requires
        hits_in_pieces(d),
    ensures
        spec_named(d, inner, outer, known) is Some ==> hits_in_pieces(spec_named(d, inner, outer, known)->Some_0),
{
    if !contains_seq(inner, icon_word()) {
        match spec_find_url(inner) {
            Some(pos) => {
                let url = inner.subrange(pos, url_end(inner, pos));
                let title = spec_trim(concat_all(split_pat(inner, url)));
                if contains_seq(url, gyazo_word()) {
                    match spec_find_gyazo(url, d.images) {
                        None => {},
                        Some(imgs) => {
                            let label = if title.len() == 0 { seq!['[', 'g', 'y', 'a', 'z', 'o', ']'] } else { title };
                            lemma_hit_piece_keeps(with_images(d, imgs), Goal::Url(label, url), PieceModel::Text { text: label, layers: outer.push(Layer::Gyazo) });
                        },
                    }
                } else {
                    let label = if title.len() > 0 {
                        title
                    } else if file_or_image(url) {
                        spec_file_name(url)
                    } else {
                        url
                    };
                    lemma_hit_piece_keeps(d, Goal::Url(label, url), PieceModel::Text { text: label, layers: outer.push(Layer::Url) });
                }
            },
            None => {
                lemma_hit_piece_keeps(with_link(d, inner), Goal::Page(inner), PieceModel::Text { text: inner, layers: outer.push(link_layer(known, inner)) });
            },
        }
    }
}

/// Every followable piece is there: each hit of a decorated line names one
/// of the line's pieces.
pub proof fn law_hits_name_pieces(s: Seq<char>, known: Map<Seq<char>, bool>, links: Seq<Seq<char>>, images: Seq<Seq<char>>)
    ensures
        spec_decorate(s, known, links, images) is Some ==> hits_in_pieces(spec_decorate(s, known, links, images)->Some_0),
{
    lemma_inline_hits(start_model(links, images), s, Seq::empty(), known);
}

proof fn lemma_has_char_contains(s: Seq<char>, c: char)
    ensures
        has_char(s, c) == s.contains(c),
{
    crate::inline::lemma_find_char(s, c, 0);
    if s.contains(c) {
        lemma_find_char_finds(s, c, 0, choose|m: int| 0 <= m < s.len() && s[m] == c);
    }
}

proof fn lemma_find_char_finds(s: Seq<char>, c: char, k: int, m: int)
    requires
        0 <= k <= m < s.len(),
        s[m] == c,
    ensures
        find_char(s, c, k) is Some,
    decreases m - k,
{
    if s[k] != c {
        lemma_find_char_finds(s, c, k + 1, m);
    }
}

proof fn lemma_close_plain(s: Seq<char>, k: int)
    requires
        1 <= k < s.len(),
        s[s.len() - 1] == ']',
        forall|m: int| k <= m < s.len() - 1 ==> s[m] != '[' && s[m] != ']',
    ensures
        close_from(s, k, 1) == Some(s.len() - 1),
    decreases s.len() - k,
{
    if k < s.len() - 1 {
        lemma_close_plain(s, k + 1);
    }
}

proof fn lemma_flags_run(s: Seq<char>, k: int, e: int)
    requires
        0 <= k <= e < s.len(),
        forall|m: int| k <= m < e ==> is_flag(s[m]),
        !is_flag(s[e]),
    ensures
        flags_end(s, k) == Some(e),
    decreases e - k,
{
    if k < e {
        lemma_flags_run(s, k + 1, e);
    }
}

proof fn lemma_line_is_one_bracket(flags: Seq<char>, body: Seq<char>)
    requires
        flags.len() > 0,
        forall|k: int| 0 <= k < flags.len() ==> is_flag(#[trigger] flags[k]),
        !body.contains('['),
        !body.contains(']'),
    ensures
        ({
            let inner = flags + seq![' '] + body;
            let s = seq!['['] + inner + seq![']'];
            &&& bracket_span(s) == Some((0int, s.len() - 1))
            &&& tick_span(s) is Some ==> tick_span(s)->Some_0.0 >= 0
            &&& s[1] != '['
            &&& s.subrange(1, s.len() - 1) == inner
        }),
{
    let inner = flags + seq![' '] + body;
    let s = seq!['['] + inner + seq![']'];
    let n = s.len() as int;
    assert(find_char(s, '[', 0) == Some(0int));
    assert forall|m: int| 1 <= m < n - 1 implies s[m] != '[' && s[m] != ']' by {
        if m - 1 < flags.len() {
            assert(s[m] == flags[m - 1]);
            assert(is_flag(flags[m - 1]));
        } else if m - 1 > flags.len() {
            assert(s[m] == body[m - 2 - flags.len()]);
            assert(body.contains(s[m]));
        } else {
            assert(s[m] == ' ');
        }
    }
    lemma_close_plain(s, 1);
    crate::inline::lemma_find_char(s, '`', 0);
    assert(s[1] == flags[0]);
    assert(is_flag(flags[0]));
    assert(s.subrange(1, n - 1) =~= inner);
}

proof fn lemma_inside_is_deco(flags: Seq<char>, body: Seq<char>)
    requires
        flags.len() > 0,
        forall|k: int| 0 <= k < flags.len() ==> is_flag(#[trigger] flags[k]),
    ensures
        ({
            let inner = flags + seq![' '] + body;
            &&& spec_trim(inner).len() > 0
            &&& inner[0] != '$'
            &&& spec_strip_deco(inner) == Some((flags, body))
        }),
{
    let inner = flags + seq![' '] + body;
    assert(inner[0] == flags[0]);
    assert(is_flag(flags[0]));
    assert(!unicode_whitespace(inner[0]));
    assert(crate::text::lead_ws(inner, 0) == 0);
    lemma_trail_end_keeps(inner, inner.len() as int, 0);
    crate::text::lemma_trail_end_bounds(inner, 0, inner.len() as int);
    assert(spec_trim(inner).len() > 0);
    assert(inner[0] != '$');
    assert forall|m: int| 0 <= m < flags.len() implies is_flag(inner[m]) by {
        assert(inner[m] == flags[m]);
    }
    assert(inner[flags.len() as int] == ' ');
    lemma_flags_run(inner, 0, flags.len() as int);
    assert(inner.take(flags.len() as int) =~= flags);
    assert(inner.skip(flags.len() + 1int) =~= body);
    assert(flags_end(inner, 0) == Some(flags.len() as int));
    assert(spec_strip_deco(inner) == Some((inner.take(flags.len() as int), inner.skip(flags.len() + 1int))));
}

proof fn lemma_rest_one_bracket(d: DecoModel, s: Seq<char>, outer: Seq<Layer>, known: Map<Seq<char>, bool>)
    requires
        s.len() >= 3,
        bracket_span(s) == Some((0int, s.len() - 1)),
        tick_span(s) is Some ==> tick_span(s)->Some_0.0 >= 0,
        s[1] != '[',
    ensures
        spec_inline_rest(d, s, outer, known) == match spec_bracket(d, s.subrange(1, s.len() - 1), outer, known) {
            Some(d3) => spec_inline_rest(d3, s.skip(s.len() as int), outer, known),
            None => None,
        },
{
    assert(s.take(0) =~= Seq::<char>::empty());
    assert(spec_plain(d, s.take(0), outer, known) == d);
}

proof fn lemma_bracket_is_deco(d: DecoModel, inner: Seq<char>, flags: Seq<char>, body: Seq<char>, outer: Seq<Layer>, known: Map<Seq<char>, bool>)
    requires
        spec_trim(inner).len() > 0,
        inner[0] != '$',
        spec_strip_deco(inner) == Some((flags, body)),
        body.len() < inner.len(),
    ensures
        spec_bracket(d, inner, outer, known) == spec_deco(d, flags, body, outer, known),
{
}

proof fn lemma_deco_of_text(d: DecoModel, flags: Seq<char>, body: Seq<char>, outer: Seq<Layer>, known: Map<Seq<char>, bool>)
    requires
        !has_char(body, '['),
    ensures
        spec_deco(d, flags, body, outer, known) == Some(
            with_marker(
                with_piece(
                    d,
                    PieceModel::Text {
                        text: body,
                        layers: outer + star_base(count_char(flags, '*'), flags) + (if has_char(flags, '-') {
                            seq![Layer::Strike]
                        } else {
                            Seq::empty()
                        }) + (if has_char(flags, '_') {
                            seq![Layer::Underline]
                        } else {
                            Seq::empty()
                        }),
                    },
                ),
                count_char(flags, '*'),
                outer,
            ),
        ),
{
}

/// A star decoration around plain text (`[_ x]`, `[- x]`, `[*-_ x]`, ...)
/// alone on a line is one text piece, the text itself, that wears the
/// underline exactly when its flags hold `_`, the strike exactly when they
/// hold `-`, italic exactly when they hold `/`, and the heading look of as
/// many stars as they hold `*` (none when they hold no `*`).
pub proof fn law_decoration_flags_style_text(
    flags: Seq<char>,
    body: Seq<char>,
    known: Map<Seq<char>, bool>,
    links: Seq<Seq<char>>,
    images: Seq<Seq<char>>,
)
    requires
        flags.len() > 0,
        forall|k: int| 0 <= k < flags.len() ==> is_flag(#[trigger] flags[k]),
        !body.contains('['),
        !body.contains(']'),
        spec_decorate(seq!['['] + flags + seq![' '] + body + seq![']'], known, links, images) is Some,
    ensures
        ({
            let m = spec_decorate(seq!['['] + flags + seq![' '] + body + seq![']'], known, links, images)->Some_0;
            &&& m.pieces.len() >= 1
            &&& m.pieces[0] is Text
            &&& m.pieces[0]->Text_text == body
            &&& m.pieces[0]->Text_layers.contains(Layer::Underline) == flags.contains('_')
            &&& m.pieces[0]->Text_layers.contains(Layer::Strike) == flags.contains('-')
            &&& m.pieces[0]->Text_layers.contains(Layer::Italic) == flags.contains('/')
            &&& count_char(flags, '*') > 0 ==> m.pieces[0]->Text_layers.contains(
                Layer::Stars(count_char(flags, '*') as usize),
            )
            &&& count_char(flags, '*') == 0 ==> forall|k: usize| !m.pieces[0]->Text_layers.contains(Layer::Stars(k))
        }),
{
    let inner = flags + seq![' '] + body;
    let s = seq!['['] + inner + seq![']'];
    assert(s =~= seq!['['] + flags + seq![' '] + body + seq![']']);
    let n = s.len() as int;
    let outer = Seq::<Layer>::empty();
    let d0 = start_model(links, images);
    let d = with_images(d0, spec_find_gyazo(s, d0.images)->Some_0);
    assert(spec_decorate(s, known, links, images) == spec_inline_rest(d, s, outer, known));
    lemma_line_is_one_bracket(flags, body);
    lemma_inside_is_deco(flags, body);
    lemma_rest_one_bracket(d, s, outer, known);
    lemma_bracket_is_deco(d, inner, flags, body, outer, known);
    lemma_has_char_contains(body, '[');
    lemma_deco_of_text(d, flags, body, outer, known);
    lemma_has_char_contains(flags, '_');
    lemma_has_char_contains(flags, '-');
    lemma_has_char_contains(flags, '/');
    let stars = count_char(flags, '*');
    let ls = outer + star_base(stars, flags) + (if has_char(flags, '-') {
        seq![Layer::Strike]
    } else {
        Seq::empty()
    }) + (if has_char(flags, '_') {
        seq![Layer::Underline]
    } else {
        Seq::empty()
    });
    let d3 = with_marker(with_piece(d, PieceModel::Text { text: body, layers: ls }), stars, outer);
    assert(s.skip(n) =~= Seq::<char>::empty());
    assert(spec_inline_rest(d3, s.skip(n), outer, known) == Some(d3));
    assert(spec_decorate(s, known, links, images) == Some(d3));
    assert(d3.pieces[0] == PieceModel::Text { text: body, layers: ls });
    lemma_flag_layers(stars, flags, ls);
}

proof fn lemma_flag_layers(stars: nat, flags: Seq<char>, ls: Seq<Layer>)
    requires
        ls == Seq::<Layer>::empty() + star_base(stars, flags)
            + (if has_char(flags, '-') { seq![Layer::Strike] } else { Seq::empty() })
            + (if has_char(flags, '_') { seq![Layer::Underline] } else { Seq::empty() }),
    ensures
        ls.contains(Layer::Underline) == has_char(flags, '_'),
        ls.contains(Layer::Strike) == has_char(flags, '-'),
        ls.contains(Layer::Italic) == has_char(flags, '/'),
        stars > 0 ==> ls.contains(Layer::Stars(stars as usize)),
        stars == 0 ==> forall|k: usize| !ls.contains(Layer::Stars(k)),
{
    let sb = star_base(stars, flags);
    let st = if has_char(flags, '-') { seq![Layer::Strike] } else { Seq::<Layer>::empty() };
    let un = if has_char(flags, '_') { seq![Layer::Underline] } else { Seq::<Layer>::empty() };
    assert(ls =~= sb + st + un);
    assert forall|i: int| 0 <= i < sb.len() implies sb[i] is Stars || sb[i] == Layer::Italic by {}
    if has_char(flags, '_') {
        assert(ls[ls.len() - 1] == Layer::Underline);
    } else {
        assert forall|i: int| 0 <= i < ls.len() implies ls[i] != Layer::Underline by {
            if i >= sb.len() {
                assert(ls[i] == st[i - sb.len()]);
            } else {
                assert(ls[i] == sb[i]);
            }
        }
    }
    if has_char(flags, '-') {
        assert(ls[sb.len() as int] == Layer::Strike);
    } else {
        assert forall|i: int| 0 <= i < ls.len() implies ls[i] != Layer::Strike by {
            if i >= sb.len() {
                assert(ls[i] == un[i - sb.len()]);
            } else {
                assert(ls[i] == sb[i]);
            }
        }
    }
    if stars > 0 {
        assert(ls[0] == Layer::Stars(stars as usize));
    } else {
        assert forall|k: usize, i: int| 0 <= i < ls.len() implies ls[i] != Layer::Stars(k) by {
            if i >= sb.len() {
                if i - sb.len() < st.len() {
                    assert(ls[i] == st[i - sb.len()]);
                } else {
                    assert(ls[i] == un[i - sb.len() - st.len()]);
                }
            } else {
                assert(ls[i] == sb[i]);
            }
        }
    }
    if has_char(flags, '/') {
        let k = if stars > 0 { 1int } else { 0int };
        assert(sb[k] == Layer::Italic);
        assert(ls[k] == Layer::Italic);
    } else {
        assert forall|i: int| 0 <= i < ls.len() implies ls[i] != Layer::Italic by {
            if i >= sb.len() {
                if i - sb.len() < st.len() {
                    assert(ls[i] == st[i - sb.len()]);
                } else {
                    assert(ls[i] == un[i - sb.len() - st.len()]);
                }
            } else {
                assert(ls[i] == sb[i]);
            }
        }
    }
}

} // verus!
