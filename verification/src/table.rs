//! Width-adaptive table layout: a table (`table:name` and its rows of
//! tab-separated cells) drawn inside a pane. When the natural widths fit,
//! the columns keep them; otherwise the frame's fixed overhead is set
//! aside and the rest is shared in proportion to the natural widths, each
//! column keeping its longest unbreakable token, and cells wrap.
use vstd::prelude::*;
use crate::decorate::{Layer, copy_layers};
use crate::math::display_width;
use crate::text::{string_of, chars_of, is_whitespace, unicode_whitespace};

verus! {

/// A run of text in one look: what a table cell is made of.
#[derive(Clone, Debug, PartialEq)]
pub struct Run {
    pub text: String,
    pub layers: Vec<Layer>,
}

pub struct RunModel {
    pub text: Seq<char>,
    pub layers: Seq<Layer>,
}

impl View for Run {
    type V = RunModel;

    open spec fn view(&self) -> RunModel {
        RunModel { text: self.text@, layers: self.layers@ }
    }
}

pub open spec fn cell_view(c: Seq<Run>) -> Seq<RunModel> {
    c.map_values(|r: Run| r@)
}

/// The columns one character takes in a terminal, as the `unicode-width`
/// crate measures it (none for a control character).
pub uninterp spec fn char_cols(c: char) -> nat;

/// `UnicodeWidthChar::width`, none counted as zero. Its result is named:
/// the width of each character is a table.
#[verifier::external_body]
pub(crate) fn char_width(c: char) -> (w: usize)
    ensures
        w == char_cols(c),
{
    unicode_width::UnicodeWidthChar::width(c).unwrap_or(0)
}

pub open spec fn usize_max() -> int {
    usize::MAX as int
}

/// The display width of a cell: its runs' widths added up (as far as a
/// `usize` reaches).
pub open spec fn runs_width(cell: Seq<RunModel>) -> int
    decreases cell.len(),
{
    if cell.len() == 0 {
        0
    } else {
        runs_width(cell.drop_last()) + display_width(cell.last().text)
    }
}

pub open spec fn spec_cell_width(cell: Seq<RunModel>) -> int {
    if runs_width(cell) < usize_max() { runs_width(cell) } else { usize_max() }
}

proof fn lemma_runs_width_take(cell: Seq<RunModel>, i: int)
    requires
        0 <= i < cell.len(),
    ensures
        runs_width(cell.take(i + 1)) == runs_width(cell.take(i)) + display_width(cell[i].text),
{
    assert(cell.take(i + 1).drop_last() =~= cell.take(i));
}

pub fn cell_width(cell: &[Run]) -> (w: usize)
    ensures
        w == spec_cell_width(cell_view(cell@)),
{
    let ghost cv = cell_view(cell@);
    let mut sum: u128 = 0;
    let mut i: usize = 0;
    while i < cell.len()
        invariant
            i <= cell.len(),
            cv == cell_view(cell@),
            sum == runs_width(cv.take(i as int)),
            sum <= i * 0xFFFF_FFFF_FFFF_FFFFu128,
        decreases cell.len() - i,
    {
        let w = crate::math::str_width(cell[i].text.as_str());
        proof {
            lemma_runs_width_take(cv, i as int);
        }
        assert(w <= 0xFFFF_FFFF_FFFF_FFFFu128);
        sum = sum + w as u128;
        i += 1;
    }
    assert(cv.take(cell.len() as int) =~= cv);
    if sum < usize::MAX as u128 {
        sum as usize
    } else {
        usize::MAX
    }
}

/// The characters of a cell, each with the look of its run.
pub open spec fn cell_chars(cell: Seq<RunModel>) -> Seq<(char, Seq<Layer>)>
    decreases cell.len(),
{
    if cell.len() == 0 {
        Seq::empty()
    } else {
        let r = cell.last();
        cell_chars(cell.drop_last()) + r.text.map_values(|c: char| (c, r.layers))
    }
}

/// Reading tokens: a run of one-column non-space characters is one token,
/// each wide character a token of its own; `(longest so far, current run)`.
pub open spec fn token_step(st: (int, int), c: char) -> (int, int) {
    let w = char_cols(c) as int;
    if unicode_whitespace(c) {
        (st.0, 0)
    } else if w >= 2 {
        (max3(st.0, st.1, w), 0)
    } else if w == 1 {
        (st.0, st.1 + 1)
    } else {
        st
    }
}

pub open spec fn max3(a: int, b: int, c: int) -> int {
    let m = if a > b { a } else { b };
    if m > c { m } else { c }
}

pub open spec fn tokens_over(cs: Seq<(char, Seq<Layer>)>) -> (int, int)
    decreases cs.len(),
{
    if cs.len() == 0 {
        (0, 0)
    } else {
        token_step(tokens_over(cs.drop_last()), cs.last().0)
    }
}

/// The longest unbreakable token of a cell, in columns.
pub open spec fn spec_longest_token(cell: Seq<RunModel>) -> int {
    let st = tokens_over(cell_chars(cell));
    if st.0 > st.1 { st.0 } else { st.1 }
}

proof fn lemma_cell_chars_take(cell: Seq<RunModel>, i: int)
    requires
        0 <= i < cell.len(),
    ensures
        cell_chars(cell.take(i + 1)) == cell_chars(cell.take(i)) + cell[i].text.map_values(|c: char| (c, cell[i].layers)),
{
    assert(cell.take(i + 1).drop_last() =~= cell.take(i));
}

proof fn lemma_tokens_push(cs: Seq<(char, Seq<Layer>)>, x: (char, Seq<Layer>))
    ensures
        tokens_over(cs.push(x)) == token_step(tokens_over(cs), x.0),
{
    assert(cs.push(x).drop_last() =~= cs);
}

/// The longest unbreakable token of a cell, in columns (as far as a
/// `usize` reaches): a run of one-column non-space characters is one
/// token, each wide character is one of its own.
pub fn longest_token(cell: &[Run]) -> (n: usize)
    ensures
        n == (if spec_longest_token(cell_view(cell@)) < usize_max() {
            spec_longest_token(cell_view(cell@))
        } else {
            usize_max()
        }),
{
    let ghost cv = cell_view(cell@);
    let mut longest: u128 = 0;
    let mut run: u128 = 0;
    let ghost mut seen: Seq<(char, Seq<Layer>)> = Seq::empty();
    let mut i: usize = 0;
    while i < cell.len()
        invariant
            i <= cell.len(),
            cv == cell_view(cell@),
            seen == cell_chars(cv.take(i as int)),
            tokens_over(seen) == (longest as int, run as int),
            run <= seen.len(),
            longest <= 0xFFFF_FFFF_FFFF_FFFF_FFFF_FFFF_FFFF_FFFFu128,
            seen.len() <= i * 0x1_0000_0000_0000_0000int,
        decreases cell.len() - i,
    {
        let cs = chars_of(cell[i].text.as_str());
        let ghost base = seen;
        let ghost ls = cv[i as int].layers;
        proof {
            lemma_cell_chars_take(cv, i as int);
        }
        let mut k: usize = 0;
        while k < cs.len()
            invariant
                k <= cs.len(),
                i < cell.len(),
                cs@ == cv[i as int].text,
                ls == cv[i as int].layers,
                seen == base + cs@.take(k as int).map_values(|c: char| (c, ls)),
                base.len() <= i * 0x1_0000_0000_0000_0000int,
                tokens_over(seen) == (longest as int, run as int),
                run <= seen.len(),
            decreases cs.len() - k,
        {
            let c = cs[k];
            let w = char_width(c);
            proof {
                lemma_tokens_push(seen, (c, ls));
                assert(base + cs@.take(k + 1).map_values(|c: char| (c, ls)) =~= seen.push((c, ls)));
                seen = seen.push((c, ls));
            }
            if is_whitespace(c) {
                run = 0;
            } else if w >= 2 {
                if run > longest {
                    longest = run;
                }
                if (w as u128) > longest {
                    longest = w as u128;
                }
                run = 0;
            } else if w == 1 {
                run += 1;
            }
            k += 1;
        }
        assert(cs@.take(cs.len() as int) =~= cs@);
        i += 1;
    }
    assert(cv.take(cell.len() as int) =~= cv);
    let m = if longest > run { longest } else { run };
    if m < usize::MAX as u128 { m as usize } else { usize::MAX }
}

// ---------------------------------------------------------------------------
// Sharing the width out
// ---------------------------------------------------------------------------

pub open spec fn sum_of(v: Seq<usize>) -> int
    decreases v.len(),
{
    if v.len() == 0 {
        0
    } else {
        sum_of(v.drop_last()) + v.last()
    }
}

/// How much column `i` could still grow: natural width over its floor.
pub open spec fn gap(natural: Seq<usize>, floors: Seq<usize>, i: int) -> int {
    if natural[i] > floors[i] { natural[i] - floors[i] } else { 0 }
}

/// Column `j` is served before column `i`: the larger gap first, ties
/// left to right.
pub open spec fn served_before(natural: Seq<usize>, floors: Seq<usize>, j: int, i: int) -> bool {
    gap(natural, floors, j) > gap(natural, floors, i) || (gap(natural, floors, j) == gap(natural, floors, i) && j < i)
}

/// The floor plus the column's proportional share of `extra`, rounded down.
pub open spec fn first_pass(natural: Seq<usize>, floors: Seq<usize>, extra: int, span: int, i: int) -> int {
    floors[i] + gap(natural, floors, i) * extra / span
}

pub open spec fn shares_upto(natural: Seq<usize>, floors: Seq<usize>, extra: int, span: int, k: int) -> int
    decreases k,
{
    if k <= 0 {
        0
    } else {
        shares_upto(natural, floors, extra, span, k - 1) + gap(natural, floors, k - 1) * extra / span
    }
}

/// A column that rounding left short of its natural width.
pub open spec fn short(natural: Seq<usize>, floors: Seq<usize>, extra: int, span: int, j: int) -> bool {
    first_pass(natural, floors, extra, span, j) < natural[j]
}

/// How many short columns among the first `k` are served before `i`.
pub open spec fn rank(natural: Seq<usize>, floors: Seq<usize>, extra: int, span: int, i: int, k: int) -> int
    decreases k,
{
    if k <= 0 {
        0
    } else {
        rank(natural, floors, extra, span, i, k - 1) + if short(natural, floors, extra, span, k - 1)
            && served_before(natural, floors, k - 1, i) {
            1int
        } else {
            0int
        }
    }
}

/// Share `budget` columns out: each column keeps its floor, the rest is
/// shared in proportion to what each could still grow (rounded down), and
/// the columns lost to rounding go one each to short columns, the largest
/// gap first. A budget that covers the natural widths gives them; one that
/// does not cover the floors gives the floors.
pub open spec fn spec_proportional(natural: Seq<usize>, floors: Seq<usize>, budget: int) -> Seq<int> {
    let n = natural.len();
    let sn = sum_of(natural);
    let sf = sum_of(floors);
    let span = if sn > sf { sn - sf } else { 0 };
    if budget >= sn {
        Seq::new(n, |i: int| natural[i] as int)
    } else if span == 0 || budget <= sf {
        Seq::new(n, |i: int| floors[i] as int)
    } else {
        let extra = budget - sf;
        let rem = extra - shares_upto(natural, floors, extra, span, n as int);
        Seq::new(
            n,
            |i: int| first_pass(natural, floors, extra, span, i) + if short(natural, floors, extra, span, i) && rank(
                natural,
                floors,
                extra,
                span,
                i,
                n as int,
            ) < rem {
                1int
            } else {
                0int
            },
        )
    }
}

proof fn lemma_sum_take(v: Seq<usize>, i: int)
    requires
        0 <= i < v.len(),
    ensures
        sum_of(v.take(i + 1)) == sum_of(v.take(i)) + v[i],
{
    assert(v.take(i + 1).drop_last() =~= v.take(i));
}

proof fn lemma_sum_bound(v: Seq<usize>)
    ensures
        0 <= sum_of(v) <= v.len() * 0xFFFF_FFFF_FFFF_FFFFint,
    decreases v.len(),
{
    if v.len() > 0 {
        lemma_sum_bound(v.drop_last());
    }
}

fn sum_u128(v: &[usize]) -> (s: u128)
    ensures
        s == sum_of(v@),
{
    let mut s: u128 = 0;
    let mut i: usize = 0;
    while i < v.len()
        invariant
            i <= v.len(),
            s == sum_of(v@.take(i as int)),
            s <= i * 0xFFFF_FFFF_FFFF_FFFFint,
        decreases v.len() - i,
    {
        proof {
            lemma_sum_take(v@, i as int);
        }
        s = s + v[i] as u128;
        i += 1;
    }
    assert(v@.take(v.len() as int) =~= v@);
    s
}

/// Rounded-down shares never add up to more than was shared.
proof fn lemma_shares_bound(natural: Seq<usize>, floors: Seq<usize>, extra: int, span: int, k: int)
    requires
        0 <= k <= natural.len(),
        natural.len() == floors.len(),
        extra >= 0,
        span > 0,
    ensures
        span * shares_upto(natural, floors, extra, span, k) <= extra * gaps_upto(natural, floors, k),
        shares_upto(natural, floors, extra, span, k) >= 0,
    decreases k,
{
    if k > 0 {
        lemma_shares_bound(natural, floors, extra, span, k - 1);
        let g = gap(natural, floors, k - 1);
        let q = g * extra / span;
        assert(g >= 0);
        assert(span * q <= g * extra && q >= 0) by (nonlinear_arith)
            requires
                q == g * extra / span,
                span > 0,
                g >= 0,
                extra >= 0,
        ;
        assert(span * shares_upto(natural, floors, extra, span, k) == span * shares_upto(natural, floors, extra, span, k - 1) + span * q) by (nonlinear_arith)
            requires
                shares_upto(natural, floors, extra, span, k) == shares_upto(natural, floors, extra, span, k - 1) + q,
        ;
        assert(extra * gaps_upto(natural, floors, k) == extra * gaps_upto(natural, floors, k - 1) + extra * g) by (nonlinear_arith)
            requires
                gaps_upto(natural, floors, k) == gaps_upto(natural, floors, k - 1) + g,
        ;
        assert(g * extra == extra * g) by (nonlinear_arith);
    } else {
        assert(shares_upto(natural, floors, extra, span, k) == 0);
        assert(gaps_upto(natural, floors, k) == 0);
        assert(span * 0 == 0 && extra * 0 == 0) by (nonlinear_arith);
    }
}

pub open spec fn gaps_upto(natural: Seq<usize>, floors: Seq<usize>, k: int) -> int
    decreases k,
{
    if k <= 0 {
        0
    } else {
        gaps_upto(natural, floors, k - 1) + gap(natural, floors, k - 1)
    }
}

/// With every floor within its natural width, the gaps add up to the
/// natural widths over the floors.
proof fn lemma_gaps_sum(natural: Seq<usize>, floors: Seq<usize>, k: int)
    requires
        0 <= k <= natural.len(),
        natural.len() == floors.len(),
        forall|i: int| 0 <= i < natural.len() ==> floors[i] <= natural[i],
    ensures
        gaps_upto(natural, floors, k) == sum_of(natural.take(k)) - sum_of(floors.take(k)),
    decreases k,
{
    if k > 0 {
        lemma_gaps_sum(natural, floors, k - 1);
        lemma_sum_take(natural, k - 1);
        lemma_sum_take(floors, k - 1);
    }
}

fn copy_usizes(v: &[usize]) -> (r: Vec<usize>)
    ensures
        r@ == v@,
{
    let mut r: Vec<usize> = Vec::new();
    let mut i: usize = 0;
    while i < v.len()
        invariant
            i <= v.len(),
            r@ == v@.take(i as int),
        decreases v.len() - i,
    {
        r.push(v[i]);
        i += 1;
        assert(r@ =~= v@.take(i as int));
    }
    assert(v@.take(v.len() as int) =~= v@);
    r
}

/// Share `budget` columns out among columns of these natural widths and
/// floors (see `spec_proportional`).
pub fn proportional(natural: &[usize], floors: &[usize], budget: usize) -> (w: Vec<usize>)
    requires
        natural.len() == floors.len(),
    ensures
        w.len() == natural.len(),
        forall|i: int| 0 <= i < w.len() ==> w[i] as int == spec_proportional(natural@, floors@, budget as int)[i],
{
    let n = natural.len();
    let sn = sum_u128(natural);
    if budget as u128 >= sn {
        return copy_usizes(natural);
    }
    let sf = sum_u128(floors);
    let span: u128 = if sn > sf { sn - sf } else { 0 };
    if span == 0 || budget as u128 <= sf {
        return copy_usizes(floors);
    }
    let extra: u128 = budget as u128 - sf;
    let ghost nv = natural@;
    let ghost fv = floors@;
    let mut w1: Vec<usize> = Vec::new();
    let mut shares: u128 = 0;
    let mut i: usize = 0;
    while i < n
        invariant
            i <= n == natural.len() == floors.len(),
            nv == natural@,
            fv == floors@,
            0 < span,
            extra < span,
            span == sum_of(nv) - sum_of(fv),
            extra == budget - sum_of(fv),
            extra <= budget,
            w1.len() == i,
            forall|k: int| 0 <= k < i ==> #[trigger] w1[k] as int == first_pass(nv, fv, extra as int, span as int, k),
            shares == shares_upto(nv, fv, extra as int, span as int, i as int),
            shares <= i * 0xFFFF_FFFF_FFFF_FFFFint,
        decreases n - i,
    {
        let g: u128 = if natural[i] > floors[i] { (natural[i] - floors[i]) as u128 } else { 0 };
        assert(g == gap(nv, fv, i as int));
        assert(g * extra <= g * span) by (nonlinear_arith)
            requires
                extra < span,
                g >= 0,
        ;
        assert(g * extra <= 0xFFFF_FFFF_FFFF_FFFFu128 * 0xFFFF_FFFF_FFFF_FFFFu128) by (nonlinear_arith)
            requires
                g <= 0xFFFF_FFFF_FFFF_FFFFu128,
                extra <= 0xFFFF_FFFF_FFFF_FFFFu128,
                g >= 0,
                extra >= 0,
        ;
        let q: u128 = g * extra / span;
        assert(q <= g) by (nonlinear_arith)
            requires
                q as int == (g as int * extra as int) / (span as int),
                g * extra <= g * span,
                span > 0,
        ;
        assert(fv[i as int] + q <= 0xFFFF_FFFF_FFFF_FFFFint + 1) by {
            if nv[i as int] > fv[i as int] {
                assert(fv[i as int] + g == nv[i as int]);
            }
        }
        w1.push(floors[i] + q as usize);
        shares = shares + q;
        i += 1;
    }
    // What rounding left over; none when the shares took it all (or more,
    // which only floors above natural widths can do).
    let rem: u128 = if shares <= extra { extra - shares } else { 0 };
    let mut w: Vec<usize> = Vec::new();
    let mut a: usize = 0;
    while a < n
        invariant
            a <= n == natural.len() == floors.len() == w1.len(),
            nv == natural@,
            fv == floors@,
            forall|k: int| 0 <= k < n ==> #[trigger] w1[k] as int == first_pass(nv, fv, extra as int, span as int, k),
            rem == (if extra >= shares_upto(nv, fv, extra as int, span as int, n as int) {
                extra - shares_upto(nv, fv, extra as int, span as int, n as int)
            } else {
                0
            }),
            w.len() == a,
            forall|k: int| 0 <= k < a ==> #[trigger] w[k] as int == first_pass(nv, fv, extra as int, span as int, k) + if short(nv, fv, extra as int, span as int, k) && rank(nv, fv, extra as int, span as int, k, n as int) < rem {
                1int
            } else {
                0int
            },
        decreases n - a,
    {
        if w1[a] < natural[a] {
            let ga = if natural[a] > floors[a] { natural[a] - floors[a] } else { 0 };
            let mut cnt: u128 = 0;
            let mut j: usize = 0;
            while j < n
                invariant
                    j <= n == natural.len() == floors.len() == w1.len(),
                    a < n,
                    ga == gap(nv, fv, a as int),
                    nv == natural@,
                    fv == floors@,
                    forall|k: int| 0 <= k < n ==> #[trigger] w1[k] as int == first_pass(nv, fv, extra as int, span as int, k),
                    cnt == rank(nv, fv, extra as int, span as int, a as int, j as int),
                    cnt <= j,
                decreases n - j,
            {
                let gj = if natural[j] > floors[j] { natural[j] - floors[j] } else { 0 };
                assert(gj == gap(nv, fv, j as int));
                if w1[j] < natural[j] && (gj > ga || (gj == ga && j < a)) {
                    cnt = cnt + 1;
                }
                j += 1;
            }
            if cnt < rem {
                w.push(w1[a] + 1);
            } else {
                w.push(w1[a]);
            }
        } else {
            w.push(w1[a]);
        }
        a += 1;
    }
    assert forall|k: int| 0 <= k < w.len() implies w[k] as int == spec_proportional(natural@, floors@, budget as int)[k] by {
        lemma_rank_nonneg(nv, fv, extra as int, span as int, k, n as int);
    }
    w
}

proof fn lemma_rank_nonneg(natural: Seq<usize>, floors: Seq<usize>, extra: int, span: int, i: int, k: int)
    ensures
        rank(natural, floors, extra, span, i, k) >= 0,
    decreases k,
{
    if k > 0 {
        lemma_rank_nonneg(natural, floors, extra, span, i, k - 1);
    }
}

/// Every column keeps its floor and none grows past its natural width.
pub proof fn law_shares_keep_floors_and_natural_widths(natural: Seq<usize>, floors: Seq<usize>, budget: int)
    requires
        natural.len() == floors.len(),
        forall|i: int| 0 <= i < natural.len() ==> floors[i] <= natural[i],
        budget >= 0,
    ensures
        spec_proportional(natural, floors, budget).len() == natural.len(),
        forall|i: int| 0 <= i < natural.len() ==> floors[i] <= #[trigger] spec_proportional(natural, floors, budget)[i] <= natural[i],
{
    let n = natural.len();
    let sn = sum_of(natural);
    let sf = sum_of(floors);
    let span = if sn > sf { sn - sf } else { 0 };
    if budget < sn && !(span == 0 || budget <= sf) {
        let extra = budget - sf;
        assert(0 < extra < span);
        assert forall|i: int| 0 <= i < n implies floors[i] <= #[trigger] spec_proportional(natural, floors, budget)[i] <= natural[i] by {
            let g = gap(natural, floors, i);
            let q = g * extra / span;
            assert(0 <= q <= g) by (nonlinear_arith)
                requires
                    q == g * extra / span,
                    0 < extra < span,
                    g >= 0,
            ;
        }
    }
}

// ---------------------------------------------------------------------------
// The shares add up
// ---------------------------------------------------------------------------

/// How many of `0..k` have `p`.
pub open spec fn count_upto(p: spec_fn(int) -> bool, k: int) -> int
    decreases k,
{
    if k <= 0 {
        0
    } else {
        count_upto(p, k - 1) + if p(k - 1) { 1int } else { 0int }
    }
}

pub open spec fn upto_set(p: spec_fn(int) -> bool, k: int) -> Set<int> {
    Set::new(|j: int| 0 <= j < k && p(j))
}

proof fn lemma_count_is_len(p: spec_fn(int) -> bool, k: int)
    requires
        k >= 0,
    ensures
        upto_set(p, k).finite(),
        upto_set(p, k).len() == count_upto(p, k),
    decreases k,
{
    if k == 0 {
        assert(upto_set(p, 0) =~= Set::<int>::empty());
    } else {
        lemma_count_is_len(p, k - 1);
        if p(k - 1) {
            assert(upto_set(p, k) =~= upto_set(p, k - 1).insert(k - 1));
        } else {
            assert(upto_set(p, k) =~= upto_set(p, k - 1));
        }
    }
}

/// The short columns served before column `i`.
pub open spec fn ahead_of(natural: Seq<usize>, floors: Seq<usize>, extra: int, span: int, i: int) -> spec_fn(int) -> bool {
    |j: int| short(natural, floors, extra, span, j) && served_before(natural, floors, j, i)
}

pub open spec fn is_short(natural: Seq<usize>, floors: Seq<usize>, extra: int, span: int) -> spec_fn(int) -> bool {
    |j: int| short(natural, floors, extra, span, j)
}

proof fn lemma_rank_counts(natural: Seq<usize>, floors: Seq<usize>, extra: int, span: int, i: int, k: int)
    ensures
        rank(natural, floors, extra, span, i, k) == count_upto(ahead_of(natural, floors, extra, span, i), k),
    decreases k,
{
    if k > 0 {
        lemma_rank_counts(natural, floors, extra, span, i, k - 1);
    }
}

/// Two short columns never share a rank: one is served before the other.
proof fn lemma_ranks_differ(natural: Seq<usize>, floors: Seq<usize>, extra: int, span: int, i: int, j: int, n: int)
    requires
        0 <= i < n,
        0 <= j < n,
        i != j,
        short(natural, floors, extra, span, i),
        short(natural, floors, extra, span, j),
        served_before(natural, floors, i, j),
    ensures
        rank(natural, floors, extra, span, i, n) < rank(natural, floors, extra, span, j, n),
{
    let pi = ahead_of(natural, floors, extra, span, i);
    let pj = ahead_of(natural, floors, extra, span, j);
    lemma_rank_counts(natural, floors, extra, span, i, n);
    lemma_rank_counts(natural, floors, extra, span, j, n);
    lemma_count_is_len(pi, n);
    lemma_count_is_len(pj, n);
    let si = upto_set(pi, n);
    let sj = upto_set(pj, n);
    assert(!si.contains(i));
    assert(sj.contains(i));
    assert(si.insert(i).subset_of(sj));
    vstd::set_lib::lemma_len_subset(si.insert(i), sj);
}

/// A short column's rank is below the number of short columns.
proof fn lemma_rank_below(natural: Seq<usize>, floors: Seq<usize>, extra: int, span: int, i: int, n: int)
    requires
        0 <= i < n,
        short(natural, floors, extra, span, i),
    ensures
        0 <= rank(natural, floors, extra, span, i, n) < count_upto(is_short(natural, floors, extra, span), n),
{
    let pi = ahead_of(natural, floors, extra, span, i);
    let ps = is_short(natural, floors, extra, span);
    lemma_rank_counts(natural, floors, extra, span, i, n);
    lemma_count_is_len(pi, n);
    lemma_count_is_len(ps, n);
    let si = upto_set(pi, n);
    let ss = upto_set(ps, n);
    assert(!si.contains(i));
    assert(si.insert(i).subset_of(ss));
    vstd::set_lib::lemma_len_subset(si.insert(i), ss);
}

pub open spec fn picked(natural: Seq<usize>, floors: Seq<usize>, extra: int, span: int, n: int, rem: int) -> spec_fn(int) -> bool {
    |i: int| short(natural, floors, extra, span, i) && rank(natural, floors, extra, span, i, n) < rem
}

/// With at least `rem` short columns, exactly `rem` of them get a column
/// more: the ranks of the short columns are `0..` one each.
proof fn lemma_picked_count(natural: Seq<usize>, floors: Seq<usize>, extra: int, span: int, n: int, rem: int)
    requires
        n >= 0,
        0 <= rem <= count_upto(is_short(natural, floors, extra, span), n),
    ensures
        count_upto(picked(natural, floors, extra, span, n, rem), n) == rem,
{
    let ps = is_short(natural, floors, extra, span);
    let pp = picked(natural, floors, extra, span, n, rem);
    let pq = |i: int| short(natural, floors, extra, span, i) && rank(natural, floors, extra, span, i, n) >= rem;
    let m = count_upto(ps, n);
    lemma_count_is_len(ps, n);
    lemma_count_is_len(pp, n);
    lemma_count_is_len(pq, n);
    let ss = upto_set(ps, n);
    let sp = upto_set(pp, n);
    let sq = upto_set(pq, n);
    let f = |i: int| rank(natural, floors, extra, span, i, n);
    assert forall|a: int, b: int| ss.contains(a) && ss.contains(b) && #[trigger] f(a) == #[trigger] f(b) implies a == b by {
        if a != b {
            if served_before(natural, floors, a, b) {
                lemma_ranks_differ(natural, floors, extra, span, a, b, n);
            } else {
                lemma_ranks_differ(natural, floors, extra, span, b, a, n);
            }
        }
    }
    assert(sp.subset_of(ss));
    assert(sq.subset_of(ss));
    vstd::set_lib::lemma_map_size(sp, sp.map(f), f);
    vstd::set_lib::lemma_map_size(sq, sq.map(f), f);
    vstd::set_lib::lemma_int_range(0, rem);
    vstd::set_lib::lemma_int_range(rem, m);
    assert forall|r: int| sp.map(f).contains(r) implies vstd::set_lib::set_int_range(0, rem).contains(r) by {
        let i = choose|i: int| sp.contains(i) && f(i) == r;
        lemma_rank_below(natural, floors, extra, span, i, n);
    }
    assert forall|r: int| sq.map(f).contains(r) implies vstd::set_lib::set_int_range(rem, m).contains(r) by {
        let i = choose|i: int| sq.contains(i) && f(i) == r;
        lemma_rank_below(natural, floors, extra, span, i, n);
    }
    vstd::set_lib::lemma_len_subset(sp.map(f), vstd::set_lib::set_int_range(0, rem));
    vstd::set_lib::lemma_len_subset(sq.map(f), vstd::set_lib::set_int_range(rem, m));
    assert(sp.union(sq) =~= ss);
    assert(sp.disjoint(sq));
    vstd::set_lib::lemma_set_disjoint_lens(sp, sq);
}

/// What rounding left of each share, added up over the first `k` columns.
pub open spec fn leftovers_upto(natural: Seq<usize>, floors: Seq<usize>, extra: int, span: int, k: int) -> int
    decreases k,
{
    if k <= 0 {
        0
    } else {
        let g = gap(natural, floors, k - 1);
        leftovers_upto(natural, floors, extra, span, k - 1) + (g * extra - span * (g * extra / span))
    }
}

proof fn lemma_leftovers_sum(natural: Seq<usize>, floors: Seq<usize>, extra: int, span: int, k: int)
    requires
        k >= 0,
        span > 0,
    ensures
        leftovers_upto(natural, floors, extra, span, k) == extra * gaps_upto(natural, floors, k) - span * shares_upto(
            natural,
            floors,
            extra,
            span,
            k,
        ),
    decreases k,
{
    if k > 0 {
        lemma_leftovers_sum(natural, floors, extra, span, k - 1);
        let g = gap(natural, floors, k - 1);
        let q = g * extra / span;
        let gk = gaps_upto(natural, floors, k - 1);
        let sk = shares_upto(natural, floors, extra, span, k - 1);
        assert(extra * (gk + g) == extra * gk + g * extra) by (nonlinear_arith);
        assert(span * (sk + q) == span * sk + span * q) by (nonlinear_arith);
    }
}

/// A column rounding leaves short loses less than a whole column; one it
/// does not leave short loses nothing.
proof fn lemma_leftovers_bound(natural: Seq<usize>, floors: Seq<usize>, extra: int, span: int, k: int)
    requires
        0 <= k <= natural.len(),
        natural.len() == floors.len(),
        forall|i: int| 0 <= i < natural.len() ==> floors[i] <= natural[i],
        0 < extra < span,
    ensures
        leftovers_upto(natural, floors, extra, span, k) <= (span - 1) * count_upto(is_short(natural, floors, extra, span), k),
    decreases k,
{
    if k > 0 {
        lemma_leftovers_bound(natural, floors, extra, span, k - 1);
        let i = k - 1;
        let g = gap(natural, floors, i);
        let q = g * extra / span;
        let r = g * extra - span * q;
        let c = count_upto(is_short(natural, floors, extra, span), k - 1);
        assert(0 <= r < span && 0 <= q <= g) by (nonlinear_arith)
            requires
                q == g * extra / span,
                r == g * extra - span * q,
                0 < extra < span,
                g >= 0,
        ;
        if !short(natural, floors, extra, span, i) {
            assert(q == g);
            assert(r == g * (extra - span)) by (nonlinear_arith)
                requires
                    r == g * extra - span * q,
                    q == g,
            ;
            assert(g * (extra - span) <= 0) by (nonlinear_arith)
                requires
                    g >= 0,
                    extra < span,
            ;
        } else {
            assert((span - 1) * (c + 1) == (span - 1) * c + (span - 1)) by (nonlinear_arith);
        }
    }
}

/// Rounding never leaves more columns over than there are short columns.
proof fn lemma_rem_fits(natural: Seq<usize>, floors: Seq<usize>, extra: int, span: int)
    requires
        natural.len() == floors.len(),
        forall|i: int| 0 <= i < natural.len() ==> floors[i] <= natural[i],
        0 < extra < span,
        span == sum_of(natural) - sum_of(floors),
    ensures
        0 <= extra - shares_upto(natural, floors, extra, span, natural.len() as int) <= count_upto(
            is_short(natural, floors, extra, span),
            natural.len() as int,
        ),
{
    let n = natural.len() as int;
    lemma_gaps_sum(natural, floors, n);
    assert(natural.take(n) =~= natural);
    assert(floors.take(n) =~= floors);
    lemma_leftovers_sum(natural, floors, extra, span, n);
    lemma_leftovers_bound(natural, floors, extra, span, n);
    lemma_shares_bound(natural, floors, extra, span, n);
    let sh = shares_upto(natural, floors, extra, span, n);
    let m = count_upto(is_short(natural, floors, extra, span), n);
    let rem = extra - sh;
    assert(span * sh <= extra * span);
    assert(sh <= extra) by (nonlinear_arith)
        requires
            span * sh <= extra * span,
            span > 0,
    ;
    assert(span * rem <= (span - 1) * m) by (nonlinear_arith)
        requires
            rem == extra - sh,
            extra * span - span * sh <= (span - 1) * m,
    ;
    lemma_count_nonneg(is_short(natural, floors, extra, span), n);
    assert(rem <= m) by (nonlinear_arith)
        requires
            span * rem <= (span - 1) * m,
            span > 0,
            m >= 0,
    ;
}

proof fn lemma_count_nonneg(p: spec_fn(int) -> bool, k: int)
    ensures
        count_upto(p, k) >= 0,
    decreases k,
{
    if k > 0 {
        lemma_count_nonneg(p, k - 1);
    }
}

pub open spec fn sum_ints(v: Seq<int>) -> int
    decreases v.len(),
{
    if v.len() == 0 {
        0
    } else {
        sum_ints(v.drop_last()) + v.last()
    }
}

proof fn lemma_shared_sum(natural: Seq<usize>, floors: Seq<usize>, extra: int, span: int, rem: int, k: int)
    requires
        0 <= k <= natural.len(),
        natural.len() == floors.len(),
    ensures
        sum_ints(
            Seq::new(
                natural.len(),
                |i: int| first_pass(natural, floors, extra, span, i) + if short(natural, floors, extra, span, i) && rank(
                    natural,
                    floors,
                    extra,
                    span,
                    i,
                    natural.len() as int,
                ) < rem {
                    1int
                } else {
                    0int
                },
            ).take(k),
        ) == sum_of(floors.take(k)) + shares_upto(natural, floors, extra, span, k) + count_upto(
            picked(natural, floors, extra, span, natural.len() as int, rem),
            k,
        ),
    decreases k,
{
    let w = Seq::new(
        natural.len(),
        |i: int| first_pass(natural, floors, extra, span, i) + if short(natural, floors, extra, span, i) && rank(
            natural,
            floors,
            extra,
            span,
            i,
            natural.len() as int,
        ) < rem {
            1int
        } else {
            0int
        },
    );
    if k > 0 {
        lemma_shared_sum(natural, floors, extra, span, rem, k - 1);
        assert(w.take(k).drop_last() =~= w.take(k - 1));
        lemma_sum_take(floors, k - 1);
    } else {
        assert(w.take(0) =~= Seq::<int>::empty());
        assert(floors.take(0) =~= Seq::<usize>::empty());
    }
}

proof fn lemma_sum_ints_of(v: Seq<usize>, k: int)
    requires
        0 <= k <= v.len(),
    ensures
        sum_ints(v.map_values(|w: usize| w as int).take(k)) == sum_of(v.take(k)),
    decreases k,
{
    if k > 0 {
        lemma_sum_ints_of(v, k - 1);
        assert(v.map_values(|w: usize| w as int).take(k).drop_last() =~= v.map_values(|w: usize| w as int).take(k - 1));
        lemma_sum_take(v, k - 1);
    } else {
        assert(v.map_values(|w: usize| w as int).take(0) =~= Seq::<int>::empty());
        assert(v.take(0) =~= Seq::<usize>::empty());
    }
}

/// Shared out between the floors and the natural widths, the columns take
/// exactly the budget: no column is lost to rounding and none is made up.
pub proof fn law_shares_add_up_to_the_budget(natural: Seq<usize>, floors: Seq<usize>, budget: int)
    requires
        natural.len() == floors.len(),
        forall|i: int| 0 <= i < natural.len() ==> floors[i] <= natural[i],
        sum_of(floors) <= budget <= sum_of(natural),
    ensures
        sum_ints(spec_proportional(natural, floors, budget)) == budget,
{
    let n = natural.len() as int;
    let sn = sum_of(natural);
    let sf = sum_of(floors);
    let span = if sn > sf { sn - sf } else { 0 };
    assert(natural.take(n) =~= natural);
    assert(floors.take(n) =~= floors);
    if budget >= sn {
        lemma_sum_ints_of(natural, n);
        assert(spec_proportional(natural, floors, budget) =~= natural.map_values(|w: usize| w as int));
        assert(natural.map_values(|w: usize| w as int).take(n) =~= natural.map_values(|w: usize| w as int));
    } else if span == 0 || budget <= sf {
        lemma_sum_ints_of(floors, n);
        assert(spec_proportional(natural, floors, budget) =~= floors.map_values(|w: usize| w as int));
        assert(floors.map_values(|w: usize| w as int).take(n) =~= floors.map_values(|w: usize| w as int));
    } else {
        let extra = budget - sf;
        lemma_rem_fits(natural, floors, extra, span);
        let rem = extra - shares_upto(natural, floors, extra, span, n);
        lemma_picked_count(natural, floors, extra, span, n, rem);
        lemma_shared_sum(natural, floors, extra, span, rem, n);
        let w = spec_proportional(natural, floors, budget);
        assert(w.take(n) =~= w);
    }
}

// ---------------------------------------------------------------------------
// The table
// ---------------------------------------------------------------------------

/// A buffered table: the first row is its header. Every row carries the
/// source line it came from, so a cursor can address rows one by one.
#[derive(Clone, Debug)]
pub struct PageTable {
    pub name: String,
    /// Source line of the `table:name` opener.
    pub name_src: usize,
    /// `(source line, cells)`, each cell a list of runs.
    pub rows: Vec<(usize, Vec<Vec<Run>>)>,
}

pub open spec fn row_cells(r: (usize, Vec<Vec<Run>>)) -> Seq<Seq<RunModel>> {
    r.1@.map_values(|c: Vec<Run>| cell_view(c@))
}

pub open spec fn rows_view(t: PageTable) -> Seq<Seq<Seq<RunModel>>> {
    t.rows@.map_values(|r: (usize, Vec<Vec<Run>>)| row_cells(r))
}

/// The most cells any row has.
pub open spec fn max_cells(rows: Seq<Seq<Seq<RunModel>>>) -> int
    decreases rows.len(),
{
    if rows.len() == 0 {
        0
    } else {
        let m = max_cells(rows.drop_last());
        if rows.last().len() > m { rows.last().len() as int } else { m }
    }
}

pub open spec fn capped(v: int) -> int {
    if v < usize_max() { v } else { usize_max() }
}

/// The widest cell of column `c` among the first `k` rows (0 if none).
pub open spec fn natural_upto(rows: Seq<Seq<Seq<RunModel>>>, c: int, k: int) -> int
    decreases k,
{
    if k <= 0 {
        0
    } else {
        let m = natural_upto(rows, c, k - 1);
        let w = if c < rows[k - 1].len() { spec_cell_width(rows[k - 1][c]) } else { 0 };
        if w > m { w } else { m }
    }
}

/// The longest unbreakable token of column `c` among the first `k` rows,
/// at least 1.
pub open spec fn floor_upto(rows: Seq<Seq<Seq<RunModel>>>, c: int, k: int) -> int
    decreases k,
{
    if k <= 0 {
        1
    } else {
        let m = floor_upto(rows, c, k - 1);
        let w = if c < rows[k - 1].len() { capped(spec_longest_token(rows[k - 1][c])) } else { 0 };
        if w > m { w } else { m }
    }
}

pub open spec fn spec_natural(rows: Seq<Seq<Seq<RunModel>>>, cols: int) -> Seq<usize> {
    Seq::new(cols as nat, |c: int| (if natural_upto(rows, c, rows.len() as int) > 1 { natural_upto(rows, c, rows.len() as int) } else { 1 }) as usize)
}

pub open spec fn spec_floors(rows: Seq<Seq<Seq<RunModel>>>, cols: int) -> Seq<usize> {
    Seq::new(cols as nat, |c: int| floor_upto(rows, c, rows.len() as int) as usize)
}

/// The column widths of a table in `available` columns, and whether it
/// had to shrink: the natural widths when they fit with the frame (a
/// border between and around the columns, a space either side of each
/// cell); otherwise the rest after the frame shared out keeping every
/// column's longest token, or one column each if even the tokens do not
/// fit, or one column each outright.
pub open spec fn spec_column_widths(rows: Seq<Seq<Seq<RunModel>>>, cols: int, available: int) -> (Seq<int>, bool) {
    let natural = spec_natural(rows, cols);
    let floors = spec_floors(rows, cols);
    let ones = Seq::new(cols as nat, |c: int| 1usize);
    let overhead = 3 * cols + 1;
    if sum_of(natural) + overhead <= available {
        (natural.map_values(|w: usize| w as int), false)
    } else {
        let budget = if available > overhead { available - overhead } else { 0 };
        if sum_of(floors) <= budget {
            (spec_proportional(natural, floors, budget), true)
        } else if cols <= budget {
            (spec_proportional(natural, ones, budget), true)
        } else {
            (ones.map_values(|w: usize| w as int), true)
        }
    }
}

impl PageTable {
    /// The most cells any row has.
    pub fn column_count(&self) -> (n: usize)
        ensures
            n == max_cells(rows_view(*self)),
    {
        let ghost rv = rows_view(*self);
        let mut m: usize = 0;
        let mut i: usize = 0;
        while i < self.rows.len()
            invariant
                i <= self.rows.len(),
                rv == rows_view(*self),
                m == max_cells(rv.take(i as int)),
            decreases self.rows.len() - i,
        {
            assert(rv.take(i + 1).drop_last() =~= rv.take(i as int));
            assert(rv[i as int].len() == self.rows@[i as int].1.len());
            if self.rows[i].1.len() > m {
                m = self.rows[i].1.len();
            }
            i += 1;
        }
        assert(rv.take(self.rows.len() as int) =~= rv);
        m
    }

    fn natural_of(&self, c: usize) -> (w: usize)
        ensures
            w == (if natural_upto(rows_view(*self), c as int, self.rows.len() as int) > 1 {
                natural_upto(rows_view(*self), c as int, self.rows.len() as int)
            } else {
                1
            }),
    {
        let ghost rv = rows_view(*self);
        let mut m: usize = 0;
        let mut i: usize = 0;
        while i < self.rows.len()
            invariant
                i <= self.rows.len(),
                rv == rows_view(*self),
                m == natural_upto(rv, c as int, i as int),
            decreases self.rows.len() - i,
        {
            if c < self.rows[i].1.len() {
                let w = cell_width(self.rows[i].1[c].as_slice());
                assert(rv[i as int][c as int] == cell_view(self.rows@[i as int].1@[c as int]@));
                if w > m {
                    m = w;
                }
            }
            i += 1;
        }
        if m > 1 { m } else { 1 }
    }

    fn floor_of(&self, c: usize) -> (w: usize)
        ensures
            w == floor_upto(rows_view(*self), c as int, self.rows.len() as int),
    {
        let ghost rv = rows_view(*self);
        let mut m: usize = 1;
        let mut i: usize = 0;
        while i < self.rows.len()
            invariant
                i <= self.rows.len(),
                rv == rows_view(*self),
                m == floor_upto(rv, c as int, i as int),
            decreases self.rows.len() - i,
        {
            if c < self.rows[i].1.len() {
                let w = longest_token(self.rows[i].1[c].as_slice());
                assert(rv[i as int][c as int] == cell_view(self.rows@[i as int].1@[c as int]@));
                if w > m {
                    m = w;
                }
            }
            i += 1;
        }
        m
    }

    /// Column widths within `available`, and whether the table had to
    /// shrink (see `spec_column_widths`).
    pub fn column_widths(&self, cols: usize, available: usize) -> (r: (Vec<usize>, bool))
        ensures
            r.0.len() == cols,
            spec_column_widths(rows_view(*self), cols as int, available as int).0.len() == cols,
            r.1 == spec_column_widths(rows_view(*self), cols as int, available as int).1,
            forall|c: int| 0 <= c < cols ==> r.0[c] as int == spec_column_widths(rows_view(*self), cols as int, available as int).0[c],
    {
        let ghost rv = rows_view(*self);
        let mut natural: Vec<usize> = Vec::new();
        let mut floors: Vec<usize> = Vec::new();
        let mut ones: Vec<usize> = Vec::new();
        let mut c: usize = 0;
        while c < cols
            invariant
                c <= cols,
                rv == rows_view(*self),
                natural@ =~= spec_natural(rv, cols as int).take(c as int),
                floors@ =~= spec_floors(rv, cols as int).take(c as int),
                ones@ =~= Seq::new(c as nat, |k: int| 1usize),
            decreases cols - c,
        {
            natural.push(self.natural_of(c));
            floors.push(self.floor_of(c));
            ones.push(1);
            c += 1;
        }
        assert(natural@ =~= spec_natural(rv, cols as int));
        assert(floors@ =~= spec_floors(rv, cols as int));
        let overhead: u128 = 3 * (cols as u128) + 1;
        let total = sum_u128(natural.as_slice());
        proof {
            lemma_sum_bound(natural@);
        }
        if overhead <= available as u128 && total <= available as u128 - overhead {
            return (natural, false);
        }
        let budget: usize = if available as u128 > overhead { (available as u128 - overhead) as usize } else { 0 };
        let fsum = sum_u128(floors.as_slice());
        if fsum <= budget as u128 {
            return (proportional(natural.as_slice(), floors.as_slice(), budget), true);
        }
        if cols <= budget {
            return (proportional(natural.as_slice(), ones.as_slice(), budget), true);
        }
        (ones, true)
    }
}

// ---------------------------------------------------------------------------
// Wrapping a cell
// ---------------------------------------------------------------------------

/// A character of a cell and the run it came from.
pub type Mark = (char, usize);

/// The state of the greedy wrap: finished lines, the line being filled
/// and its width, the word being read and its width, the space seen
/// before it, and whether the last character was whitespace.
pub struct WrapState {
    pub lines: Seq<Seq<Mark>>,
    pub cur: Seq<Mark>,
    pub cur_w: int,
    pub word: Seq<Mark>,
    pub word_w: int,
    pub pending: Option<Mark>,
    pub in_space: bool,
}

pub open spec fn wrap_start() -> WrapState {
    WrapState { lines: Seq::empty(), cur: Seq::empty(), cur_w: 0, word: Seq::empty(), word_w: 0, pending: None, in_space: false }
}

/// One character onto the line, which is first ended if the character
/// does not fit.
pub open spec fn put(st: WrapState, m: Mark, width: int) -> WrapState {
    let w = char_cols(m.0) as int;
    let broke = w > 0 && st.cur_w + w > width;
    let lines = if broke { st.lines.push(st.cur) } else { st.lines };
    let cur = if broke { Seq::empty() } else { st.cur };
    let cur_w = if broke { 0 } else { st.cur_w };
    WrapState { lines, cur: cur.push(m), cur_w: cur_w + w, ..st }
}

/// Characters put one by one (a word wider than the column).
pub open spec fn put_all(st: WrapState, ms: Seq<Mark>, width: int) -> WrapState
    decreases ms.len(),
{
    if ms.len() == 0 {
        st
    } else {
        put(put_all(st, ms.drop_last(), width), ms.last(), width)
    }
}

/// The word read so far goes onto the line: after the pending space when
/// both fit, else on a line of its own, else split character by
/// character. A word that starts a line takes no space before it.
pub open spec fn commit(st: WrapState, width: int) -> WrapState {
    if st.word.len() == 0 {
        st
    } else {
        let w = st.word;
        let ww = st.word_w;
        let cleared = WrapState { word: Seq::empty(), word_w: 0, pending: None, ..st };
        if st.cur.len() == 0 {
            if ww <= width {
                WrapState { cur: w, cur_w: ww, ..cleared }
            } else {
                put_all(cleared, w, width)
            }
        } else {
            let sp_w: int = if st.pending is Some { 1 } else { 0 };
            if st.cur_w + sp_w + ww <= width {
                let cur = if st.pending is Some { st.cur.push(st.pending->Some_0) } else { st.cur };
                WrapState { cur: cur + w, cur_w: st.cur_w + sp_w + ww, ..cleared }
            } else if ww <= width {
                WrapState { lines: st.lines.push(st.cur), cur: w, cur_w: ww, ..cleared }
            } else {
                put_all(WrapState { lines: st.lines.push(st.cur), cur: Seq::empty(), cur_w: 0, ..cleared }, w, width)
            }
        }
    }
}

/// One character read: whitespace ends the word (a run of it counts once,
/// as the space before the next word); a wide character is a word of its
/// own; anything else joins the word.
pub open spec fn wrap_step(st: WrapState, m: Mark, width: int) -> WrapState {
    let w = char_cols(m.0) as int;
    if unicode_whitespace(m.0) {
        if st.in_space {
            st
        } else {
            WrapState { pending: Some(m), in_space: true, ..commit(st, width) }
        }
    } else if w >= 2 {
        let c1 = commit(st, width);
        WrapState { in_space: false, ..commit(WrapState { word: seq![m], word_w: w, ..c1 }, width) }
    } else {
        WrapState { word: st.word.push(m), word_w: st.word_w + w, in_space: false, ..st }
    }
}

pub open spec fn wrap_over(ms: Seq<Mark>, width: int) -> WrapState
    decreases ms.len(),
{
    if ms.len() == 0 {
        wrap_start()
    } else {
        wrap_step(wrap_over(ms.drop_last(), width), ms.last(), width)
    }
}

/// The wrapped lines of a cell's characters, at least one.
pub open spec fn wrap_lines(ms: Seq<Mark>, width: int) -> Seq<Seq<Mark>> {
    let st = commit(wrap_over(ms, width), width);
    let ls = if st.cur.len() > 0 { st.lines.push(st.cur) } else { st.lines };
    if ls.len() == 0 { seq![Seq::empty()] } else { ls }
}

/// The characters of a cell, each with the index of its run.
pub open spec fn cell_marks(cell: Seq<RunModel>) -> Seq<Mark>
    decreases cell.len(),
{
    if cell.len() == 0 {
        Seq::empty()
    } else {
        let i = (cell.len() - 1) as usize;
        cell_marks(cell.drop_last()) + cell.last().text.map_values(|c: char| (c, i))
    }
}

/// The look of a run, bold in the header.
pub open spec fn run_look(cell: Seq<RunModel>, i: usize, header: bool) -> Seq<Layer> {
    let base = if i < cell.len() { cell[i as int].layers } else { Seq::empty() };
    if header { base.push(Layer::Bold) } else { base }
}

/// A wrapped line back into runs: neighbouring characters of one look
/// share a run.
pub open spec fn merge_line(line: Seq<Mark>, cell: Seq<RunModel>, header: bool) -> Seq<RunModel>
    decreases line.len(),
{
    if line.len() == 0 {
        Seq::empty()
    } else {
        let out = merge_line(line.drop_last(), cell, header);
        let m = line.last();
        let look = run_look(cell, m.1, header);
        if out.len() > 0 && out.last().layers == look {
            out.update(out.len() - 1, RunModel { text: out.last().text.push(m.0), layers: look })
        } else {
            out.push(RunModel { text: seq![m.0], layers: look })
        }
    }
}

/// A cell wrapped to `width` columns (at least one): a greedy word wrap
/// where whitespace and wide characters are break opportunities and a
/// word wider than the column is split between characters.
pub open spec fn spec_wrap_cell(cell: Seq<RunModel>, width: int, header: bool) -> Seq<Seq<RunModel>> {
    let w = if width > 1 { width } else { 1 };
    wrap_lines(cell_marks(cell), w).map_values(|l: Seq<Mark>| merge_line(l, cell, header))
}

struct Wrap {
    lines: Vec<Vec<Mark>>,
    cur: Vec<Mark>,
    cur_w: u128,
    word: Vec<Mark>,
    word_w: u128,
    pending: Option<Mark>,
    in_space: bool,
}

spec fn wrap_view(w: Wrap) -> WrapState {
    WrapState {
        lines: w.lines@.map_values(|l: Vec<Mark>| l@),
        cur: w.cur@,
        cur_w: w.cur_w as int,
        word: w.word@,
        word_w: w.word_w as int,
        pending: w.pending,
        in_space: w.in_space,
    }
}

spec fn bounded(w: Wrap) -> bool {
    &&& w.cur_w <= 0x1_0000_0000_0000_0000u128
    &&& w.word_w <= 0x1_0000_0000_0000_0000u128
    &&& (w.word@.len() == 0 ==> w.word_w == 0)
}

fn put_exec(st: &mut Wrap, m: Mark, width: u128)
    requires
        bounded(*old(st)),
        width <= 0x1_0000_0000_0000_0000u128,
    ensures
        wrap_view(*final(st)) == put(wrap_view(*old(st)), m, width as int),
        bounded(*final(st)),
{
    let ghost before = wrap_view(*st);
    let w = char_width(m.0) as u128;
    if w > 0 && st.cur_w + w > width {
        let mut done: Vec<Mark> = Vec::new();
        std::mem::swap(&mut done, &mut st.cur);
        st.lines.push(done);
        st.cur_w = 0;
    }
    st.cur.push(m);
    st.cur_w = st.cur_w + w;
    assert(wrap_view(*st).lines =~= put(before, m, width as int).lines);
}

proof fn lemma_put_all_keeps(st: WrapState, ms: Seq<Mark>, width: int)
    ensures
        put_all(st, ms, width).word == st.word,
        put_all(st, ms, width).word_w == st.word_w,
        put_all(st, ms, width).pending == st.pending,
        put_all(st, ms, width).in_space == st.in_space,
    decreases ms.len(),
{
    if ms.len() > 0 {
        lemma_put_all_keeps(st, ms.drop_last(), width);
    }
}

fn put_all_exec(st: &mut Wrap, ms: &Vec<Mark>, width: u128)
    requires
        bounded(*old(st)),
        width <= 0x1_0000_0000_0000_0000u128,
    ensures
        wrap_view(*final(st)) == put_all(wrap_view(*old(st)), ms@, width as int),
        bounded(*final(st)),
        final(st).word@ == old(st).word@,
        final(st).word_w == old(st).word_w,
{
    let ghost start = wrap_view(*st);
    proof {
        lemma_put_all_keeps(start, ms@, width as int);
    }
    let mut k: usize = 0;
    while k < ms.len()
        invariant
            k <= ms.len(),
            bounded(*st),
            width <= 0x1_0000_0000_0000_0000u128,
            wrap_view(*st) == put_all(start, ms@.take(k as int), width as int),
        decreases ms.len() - k,
    {
        assert(ms@.take(k + 1).drop_last() =~= ms@.take(k as int));
        put_exec(st, ms[k], width);
        k += 1;
    }
    assert(ms@.take(ms.len() as int) =~= ms@);
}

fn commit_exec(st: &mut Wrap, width: u128)
    requires
        bounded(*old(st)),
        width <= 0x1_0000_0000_0000_0000u128,
    ensures
        wrap_view(*final(st)) == commit(wrap_view(*old(st)), width as int),
        bounded(*final(st)),
        final(st).word@.len() == 0,
        final(st).word_w == 0,
{
    if st.word.len() == 0 {
        return;
    }
    let ghost s0 = wrap_view(*st);
    let ghost cleared = WrapState { word: Seq::empty(), word_w: 0, pending: None, ..s0 };
    let mut w: Vec<Mark> = Vec::new();
    std::mem::swap(&mut w, &mut st.word);
    let ww = st.word_w;
    st.word_w = 0;
    let sp = st.pending;
    st.pending = None;
    assert(wrap_view(*st) == cleared) by {
        assert(wrap_view(*st).lines =~= s0.lines);
        assert(wrap_view(*st).word =~= Seq::<Mark>::empty());
    }
    if st.cur.len() == 0 {
        if ww <= width {
            st.cur = w;
            st.cur_w = ww;
            assert(wrap_view(*st) == WrapState { cur: s0.word, cur_w: s0.word_w, ..cleared }) by {
                assert(wrap_view(*st).lines =~= s0.lines);
            }
        } else {
            put_all_exec(st, &w, width);
        }
        return;
    }
    let sp_w: u128 = if sp.is_some() { 1 } else { 0 };
    if st.cur_w + sp_w + ww <= width {
        let new_w = st.cur_w + sp_w + ww;
        let mut joined: Vec<Mark> = Vec::new();
        std::mem::swap(&mut joined, &mut st.cur);
        if sp.is_some() {
            joined.push(sp.unwrap());
        }
        let mut k: usize = 0;
        let ghost base = joined@;
        while k < w.len()
            invariant
                k <= w.len(),
                joined@ == base + w@.take(k as int),
            decreases w.len() - k,
        {
            joined.push(w[k]);
            k += 1;
            assert(joined@ =~= base + w@.take(k as int));
        }
        assert(w@.take(w.len() as int) =~= w@);
        st.cur = joined;
        st.cur_w = new_w;
        assert(wrap_view(*st) == commit(s0, width as int)) by {
            assert(wrap_view(*st).lines =~= s0.lines);
        }
    } else if ww <= width {
        let mut done: Vec<Mark> = Vec::new();
        std::mem::swap(&mut done, &mut st.cur);
        st.lines.push(done);
        st.cur = w;
        st.cur_w = ww;
        assert(wrap_view(*st) == commit(s0, width as int)) by {
            assert(wrap_view(*st).lines =~= s0.lines.push(s0.cur));
        }
    } else {
        let mut done: Vec<Mark> = Vec::new();
        std::mem::swap(&mut done, &mut st.cur);
        st.lines.push(done);
        st.cur_w = 0;
        assert(wrap_view(*st) == WrapState { lines: s0.lines.push(s0.cur), cur: Seq::empty(), cur_w: 0, ..cleared }) by {
            assert(wrap_view(*st).lines =~= s0.lines.push(s0.cur));
            assert(wrap_view(*st).cur =~= Seq::<Mark>::empty());
        }
        put_all_exec(st, &w, width);
    }
}

fn step_exec(st: &mut Wrap, m: Mark, width: u128)
    requires
        bounded(*old(st)),
        old(st).word_w < 0x1_0000_0000_0000_0000u128,
        width <= 0x1_0000_0000_0000_0000u128,
    ensures
        wrap_view(*final(st)) == wrap_step(wrap_view(*old(st)), m, width as int),
        bounded(*final(st)),
        final(st).word_w <= old(st).word_w + 1,
{
    let ghost s0 = wrap_view(*st);
    let w = char_width(m.0) as u128;
    if is_whitespace(m.0) {
        if st.in_space {
            return;
        }
        commit_exec(st, width);
        let ghost c = wrap_view(*st);
        st.pending = Some(m);
        st.in_space = true;
        assert(wrap_view(*st) == WrapState { pending: Some(m), in_space: true, ..c }) by {
            assert(wrap_view(*st).lines =~= c.lines);
        }
    } else if w >= 2 {
        commit_exec(st, width);
        let ghost c1 = wrap_view(*st);
        st.word = vec![m];
        st.word_w = w;
        let ghost c2 = WrapState { word: seq![m], word_w: w as int, ..c1 };
        assert(wrap_view(*st) == c2) by {
            assert(wrap_view(*st).lines =~= c1.lines);
            assert(wrap_view(*st).word =~= seq![m]);
        }
        commit_exec(st, width);
        let ghost c3 = wrap_view(*st);
        st.in_space = false;
        assert(wrap_view(*st) == WrapState { in_space: false, ..c3 }) by {
            assert(wrap_view(*st).lines =~= c3.lines);
        }
    } else {
        st.word.push(m);
        st.word_w = st.word_w + w;
        st.in_space = false;
        assert(wrap_view(*st) == WrapState { word: s0.word.push(m), word_w: s0.word_w + w, in_space: false, ..s0 }) by {
            assert(wrap_view(*st).lines =~= s0.lines);
        }
    }
}

fn cell_marks_exec(cell: &[Run]) -> (ms: Vec<Mark>)
    ensures
        ms@ == cell_marks(cell_view(cell@)),
{
    let ghost cv = cell_view(cell@);
    let mut ms: Vec<Mark> = Vec::new();
    let mut i: usize = 0;
    while i < cell.len()
        invariant
            i <= cell.len(),
            cv == cell_view(cell@),
            ms@ == cell_marks(cv.take(i as int)),
        decreases cell.len() - i,
    {
        let cs = chars_of(cell[i].text.as_str());
        let ghost base = ms@;
        proof {
            let t = cv.take(i + 1);
            assert(t.drop_last() =~= cv.take(i as int));
            assert(t.len() - 1 == i);
        }
        let mut k: usize = 0;
        while k < cs.len()
            invariant
                k <= cs.len(),
                cs@ == cv[i as int].text,
                ms@ == base + cs@.take(k as int).map_values(|c: char| (c, i)),
            decreases cs.len() - k,
        {
            ms.push((cs[k], i));
            k += 1;
            assert(ms@ =~= base + cs@.take(k as int).map_values(|c: char| (c, i)));
        }
        assert(cs@.take(cs.len() as int) =~= cs@);
        i += 1;
    }
    assert(cv.take(cell.len() as int) =~= cv);
    ms
}

fn look_of(cell: &[Run], i: usize, header: bool) -> (l: Vec<Layer>)
    ensures
        l@ == run_look(cell_view(cell@), i, header),
{
    let mut l: Vec<Layer> = Vec::new();
    if i >= cell.len() {
        if header {
            l.push(Layer::Bold);
        }
        assert(l@ =~= run_look(cell_view(cell@), i, header));
        return l;
    }
    let src = &cell[i].layers;
    let mut k: usize = 0;
    while k < src.len()
        invariant
            k <= src.len(),
            l@ == src@.take(k as int),
        decreases src.len() - k,
    {
        l.push(src[k]);
        k += 1;
        assert(l@ =~= src@.take(k as int));
    }
    assert(src@.take(src.len() as int) =~= src@);
    if header {
        l.push(Layer::Bold);
    }
    l
}

fn same_layers(a: &Vec<Layer>, b: &Vec<Layer>) -> (r: bool)
    ensures
        r == (a@ == b@),
{
    if a.len() != b.len() {
        return false;
    }
    let mut k: usize = 0;
    while k < a.len()
        invariant
            k <= a.len() == b.len(),
            forall|x: int| 0 <= x < k ==> a@[x] == b@[x],
        decreases a.len() - k,
    {
        if a[k] != b[k] {
            return false;
        }
        k += 1;
    }
    assert(a@ =~= b@);
    true
}

fn merge_line_exec(line: &Vec<Mark>, cell: &[Run], header: bool) -> (runs: Vec<Run>)
    ensures
        runs@.map_values(|r: Run| r@) == merge_line(line@, cell_view(cell@), header),
{
    let ghost cv = cell_view(cell@);
    let mut texts: Vec<Vec<char>> = Vec::new();
    let mut looks: Vec<Vec<Layer>> = Vec::new();
    let mut k: usize = 0;
    while k < line.len()
        invariant
            k <= line.len(),
            cv == cell_view(cell@),
            texts.len() == looks.len(),
            merge_line(line@.take(k as int), cv, header) == Seq::new(texts.len() as nat, |x: int| RunModel { text: texts@[x]@, layers: looks@[x]@ }),
        decreases line.len() - k,
    {
        let ghost before = Seq::new(texts.len() as nat, |x: int| RunModel { text: texts@[x]@, layers: looks@[x]@ });
        let (c, ri) = line[k];
        let look = look_of(cell, ri, header);
        assert(line@.take(k + 1).drop_last() =~= line@.take(k as int));
        assert(line@.take(k + 1).last() == line@[k as int]);
        let n = texts.len();
        if n > 0 && same_layers(&looks[n - 1], &look) {
            let mut t = texts.pop().unwrap();
            t.push(c);
            texts.push(t);
            assert(Seq::new(texts.len() as nat, |x: int| RunModel { text: texts@[x]@, layers: looks@[x]@ })
                =~= before.update(n - 1, RunModel { text: before.last().text.push(c), layers: look@ }));
        } else {
            let mut fresh: Vec<char> = Vec::new();
            fresh.push(c);
            assert(fresh@ =~= seq![c]);
            texts.push(fresh);
            looks.push(look);
            assert(Seq::new(texts.len() as nat, |x: int| RunModel { text: texts@[x]@, layers: looks@[x]@ })
                =~= before.push(RunModel { text: seq![c], layers: look@ }));
        }
        k += 1;
    }
    assert(line@.take(line.len() as int) =~= line@);
    let mut runs: Vec<Run> = Vec::new();
    let mut j: usize = 0;
    while j < texts.len()
        invariant
            j <= texts.len() == looks.len(),
            runs.len() == j,
            forall|x: int| 0 <= x < j ==> (#[trigger] runs@[x])@ == (RunModel { text: texts@[x]@, layers: looks@[x]@ }),
        decreases texts.len() - j,
    {
        let text = string_of(texts[j].as_slice());
        let layers = copy_layers(&looks[j]);
        runs.push(Run { text, layers });
        j += 1;
    }
    assert(runs@.map_values(|r: Run| r@) =~= Seq::new(texts.len() as nat, |x: int| RunModel { text: texts@[x]@, layers: looks@[x]@ }));
    runs
}


/// The view of a list of drawn lines.
pub open spec fn lines_view(v: Seq<Vec<Run>>) -> Seq<Seq<RunModel>> {
    v.map_values(|l: Vec<Run>| cell_view(l@))
}

/// A cell wrapped to `width` columns (see `spec_wrap_cell`).
pub fn wrap_cell(cell: &[Run], width: usize, header: bool) -> (out: Vec<Vec<Run>>)
    ensures
        lines_view(out@) == spec_wrap_cell(cell_view(cell@), width as int, header),
{
    let ghost cv = cell_view(cell@);
    let w: usize = if width > 1 { width } else { 1 };
    let marks = cell_marks_exec(cell);
    let mut st = Wrap {
        lines: Vec::new(),
        cur: Vec::new(),
        cur_w: 0,
        word: Vec::new(),
        word_w: 0,
        pending: None,
        in_space: false,
    };
    assert(wrap_view(st) == wrap_start()) by {
        assert(wrap_view(st).lines =~= Seq::<Seq<Mark>>::empty());
        assert(wrap_view(st).cur =~= Seq::<Mark>::empty());
        assert(wrap_view(st).word =~= Seq::<Mark>::empty());
    }
    assert(marks@.take(0) =~= Seq::<Mark>::empty());
    let mut k: usize = 0;
    while k < marks.len()
        invariant
            k <= marks.len(),
            bounded(st),
            st.word_w <= k,
            wrap_view(st) == wrap_over(marks@.take(k as int), w as int),
        decreases marks.len() - k,
    {
        assert(marks@.take(k + 1).drop_last() =~= marks@.take(k as int));
        step_exec(&mut st, marks[k], w as u128);
        k += 1;
    }
    assert(marks@.take(marks.len() as int) =~= marks@);
    commit_exec(&mut st, w as u128);
    let ghost fin = wrap_view(st);
    let Wrap { lines: mut ls, cur, .. } = st;
    if cur.len() > 0 {
        ls.push(cur);
    }
    if ls.len() == 0 {
        ls.push(Vec::new());
    }
    let ghost wl = wrap_lines(marks@, w as int);
    assert(ls@.map_values(|l: Vec<Mark>| l@) =~= wl);
    let mut out: Vec<Vec<Run>> = Vec::new();
    let mut i: usize = 0;
    while i < ls.len()
        invariant
            i <= ls.len(),
            cv == cell_view(cell@),
            ls@.map_values(|l: Vec<Mark>| l@) == wl,
            lines_view(out@) =~= wl.take(i as int).map_values(|l: Seq<Mark>| merge_line(l, cv, header)),
        decreases ls.len() - i,
    {
        let runs = merge_line_exec(&ls[i], cell, header);
        assert(ls@[i as int]@ == wl[i as int]);
        let ghost prev = lines_view(out@);
        let ghost made = cell_view(runs@);
        assert(made == merge_line(wl[i as int], cv, header));
        out.push(runs);
        assert(lines_view(out@) =~= prev.push(made));
        assert(wl.take(i + 1) =~= wl.take(i as int).push(wl[i as int]));
        i += 1;
        assert(lines_view(out@) =~= wl.take(i as int).map_values(|l: Seq<Mark>| merge_line(l, cv, header)));
    }
    assert(wl.take(ls.len() as int) =~= wl);
    out
}


// ---------------------------------------------------------------------------
// Drawing
// ---------------------------------------------------------------------------

/// Text in no particular look.
pub open spec fn plain(text: Seq<char>) -> RunModel {
    RunModel { text, layers: Seq::empty() }
}

/// Text in the frame's look.
pub open spec fn framed(text: Seq<char>) -> RunModel {
    RunModel { text, layers: seq![Layer::Frame] }
}

pub open spec fn repeated(c: char, n: int) -> Seq<char> {
    Seq::new(n as nat, |i: int| c)
}

/// A border's rule over columns of these widths: a column's width and its
/// two spaces of rule each, `mid` between columns.
pub open spec fn rule_body(widths: Seq<int>, mid: char) -> Seq<char>
    decreases widths.len(),
{
    if widths.len() == 0 {
        Seq::empty()
    } else if widths.len() == 1 {
        repeated('─', widths[0] + 2)
    } else {
        rule_body(widths.drop_last(), mid).push(mid) + repeated('─', widths.last() + 2)
    }
}

pub open spec fn spec_border(widths: Seq<int>, l: char, mid: char, r: char) -> RunModel {
    framed(seq![l] + rule_body(widths, mid) + seq![r])
}

fn push_repeated(cs: &mut Vec<char>, c: char, n: usize)
    ensures
        final(cs)@ == old(cs)@ + repeated(c, n as int),
{
    let ghost base = cs@;
    let mut k: usize = 0;
    while k < n
        invariant
            k <= n,
            cs@ == base + repeated(c, k as int),
        decreases n - k,
    {
        cs.push(c);
        k += 1;
        assert(cs@ =~= base + repeated(c, k as int));
    }
}

fn frame_look() -> (l: Vec<Layer>)
    ensures
        l@ == seq![Layer::Frame],
{
    let mut l: Vec<Layer> = Vec::new();
    l.push(Layer::Frame);
    assert(l@ =~= seq![Layer::Frame]);
    l
}

pub open spec fn widths_view(widths: Seq<usize>) -> Seq<int> {
    widths.map_values(|w: usize| w as int)
}

/// A border line in the frame's look.
fn border(widths: &Vec<usize>, l: char, mid: char, r: char) -> (run: Run)
    ensures
        run@ == spec_border(widths_view(widths@), l, mid, r),
{
    let ghost wv = widths_view(widths@);
    let mut cs: Vec<char> = Vec::new();
    cs.push(l);
    assert(cs@ =~= seq![l] + rule_body(wv.take(0), mid));
    let mut i: usize = 0;
    while i < widths.len()
        invariant
            i <= widths.len(),
            wv == widths_view(widths@),
            cs@ == seq![l] + rule_body(wv.take(i as int), mid),
        decreases widths.len() - i,
    {
        let ghost before = cs@;
        if i > 0 {
            cs.push(mid);
        }
        push_repeated(&mut cs, '─', 2);
        push_repeated(&mut cs, '─', widths[i]);
        proof {
            let t = wv.take(i + 1);
            assert(t.drop_last() =~= wv.take(i as int));
            assert(repeated('─', 2) + repeated('─', widths[i as int] as int) =~= repeated('─', wv[i as int] + 2));
            if i == 0 {
                assert(cs@ =~= seq![l] + rule_body(t, mid));
            } else {
                assert(cs@ =~= seq![l] + rule_body(t, mid));
            }
        }
        i += 1;
    }
    assert(wv.take(widths.len() as int) =~= wv);
    cs.push(r);
    assert(cs@ =~= seq![l] + rule_body(wv, mid) + seq![r]);
    let text = string_of(cs.as_slice());
    Run { text, layers: frame_look() }
}


/// Each column's cell of a row wrapped to the column's width; a row with
/// fewer cells has empty ones.
pub open spec fn row_wrapped(row: Seq<Seq<RunModel>>, widths: Seq<int>, header: bool) -> Seq<Seq<Seq<RunModel>>> {
    Seq::new(
        widths.len(),
        |c: int| spec_wrap_cell(if c < row.len() { row[c] } else { Seq::empty() }, widths[c], header),
    )
}

pub open spec fn tallest(wrapped: Seq<Seq<Seq<RunModel>>>) -> int
    decreases wrapped.len(),
{
    if wrapped.len() == 0 {
        0
    } else {
        let m = tallest(wrapped.drop_last());
        if wrapped.last().len() > m { wrapped.last().len() as int } else { m }
    }
}

/// How many lines a row takes: its tallest wrapped cell (one when there
/// are no columns).
pub open spec fn row_height(wrapped: Seq<Seq<Seq<RunModel>>>) -> int {
    if wrapped.len() == 0 { 1 } else { tallest(wrapped) }
}

/// Column `c` of line `li` of a row: a space, that line of the cell (blanks
/// the column's width once the cell has run out), padding up to the width
/// and a space, then the rule.
pub open spec fn cell_segment(wrapped: Seq<Seq<Seq<RunModel>>>, widths: Seq<int>, c: int, li: int) -> Seq<RunModel> {
    let w = widths[c];
    let content = if li < wrapped[c].len() { wrapped[c][li] } else { seq![plain(repeated(' ', w))] };
    let used = runs_width(content);
    let pad = if w > used { w - used } else { 0 };
    seq![plain(seq![' '])] + content + seq![plain(repeated(' ', pad).push(' ')), framed(seq!['│'])]
}

pub open spec fn segments_upto(wrapped: Seq<Seq<Seq<RunModel>>>, widths: Seq<int>, li: int, k: int) -> Seq<RunModel>
    decreases k,
{
    if k <= 0 {
        Seq::empty()
    } else {
        segments_upto(wrapped, widths, li, k - 1) + cell_segment(wrapped, widths, k - 1, li)
    }
}

pub open spec fn row_line(wrapped: Seq<Seq<Seq<RunModel>>>, widths: Seq<int>, li: int) -> Seq<RunModel> {
    seq![framed(seq!['│'])] + segments_upto(wrapped, widths, li, widths.len() as int)
}

/// The lines a row is drawn as, framed.
pub open spec fn spec_render_row(row: Seq<Seq<RunModel>>, widths: Seq<int>, header: bool) -> Seq<Seq<RunModel>> {
    let wrapped = row_wrapped(row, widths, header);
    Seq::new(row_height(wrapped) as nat, |li: int| row_line(wrapped, widths, li))
}

/// The view of drawn lines, each with the source line it belongs to.
pub open spec fn drawn_view(v: Seq<(Vec<Run>, usize)>) -> Seq<(Seq<RunModel>, usize)> {
    v.map_values(|p: (Vec<Run>, usize)| (cell_view(p.0@), p.1))
}

fn copy_run(r: &Run) -> (c: Run)
    ensures
        c@ == r@,
{
    Run { text: crate::text::copy_str(r.text.as_str()), layers: copy_layers(&r.layers) }
}

fn plain_run(cs: Vec<char>) -> (r: Run)
    ensures
        r@ == plain(cs@),
{
    let l: Vec<Layer> = Vec::new();
    assert(l@ =~= Seq::<Layer>::empty());
    Run { text: string_of(cs.as_slice()), layers: l }
}

fn rule_run() -> (r: Run)
    ensures
        r@ == framed(seq!['│']),
{
    let mut cs: Vec<char> = Vec::new();
    cs.push('│');
    assert(cs@ =~= seq!['│']);
    Run { text: string_of(cs.as_slice()), layers: frame_look() }
}

/// Draw one row (several lines where its cells wrap), each line tagged
/// with `src`, onto `out`.
fn render_row(
    out: &mut Vec<(Vec<Run>, usize)>,
    row: &Vec<Vec<Run>>,
    widths: &Vec<usize>,
    header: bool,
    src: usize,
)
    ensures
        drawn_view(final(out)@) == drawn_view(old(out)@) + spec_render_row(
            row@.map_values(|c: Vec<Run>| cell_view(c@)),
            widths_view(widths@),
            header,
        ).map_values(|l: Seq<RunModel>| (l, src)),
{
    let ghost rv = row@.map_values(|c: Vec<Run>| cell_view(c@));
    let ghost wv = widths_view(widths@);
    let ghost spec_wrapped = row_wrapped(rv, wv, header);
    let empty: Vec<Run> = Vec::new();
    let mut wrapped: Vec<Vec<Vec<Run>>> = Vec::new();
    let mut c: usize = 0;
    while c < widths.len()
        invariant
            c <= widths.len(),
            wv == widths_view(widths@),
            rv == row@.map_values(|c: Vec<Run>| cell_view(c@)),
            spec_wrapped == row_wrapped(rv, wv, header),
            empty@.len() == 0,
            wrapped.len() == c,
            forall|k: int| 0 <= k < c ==> lines_view(#[trigger] wrapped@[k]@) == spec_wrapped[k],
        decreases widths.len() - c,
    {
        let cell: &[Run] = if c < row.len() { row[c].as_slice() } else { empty.as_slice() };
        assert(cell_view(cell@) == (if (c as int) < rv.len() { rv[c as int] } else { Seq::<RunModel>::empty() })) by {
            if (c as int) >= rv.len() {
                assert(cell_view(cell@) =~= Seq::<RunModel>::empty());
            }
        }
        wrapped.push(wrap_cell(cell, widths[c], header));
        c += 1;
    }
    let ghost wview = Seq::new(wrapped.len() as nat, |k: int| lines_view(wrapped@[k]@));
    assert(wview =~= spec_wrapped);
    let mut height: usize = 0;
    let mut k: usize = 0;
    while k < wrapped.len()
        invariant
            k <= wrapped.len(),
            wview == Seq::new(wrapped.len() as nat, |x: int| lines_view(wrapped@[x]@)),
            height == tallest(wview.take(k as int)),
        decreases wrapped.len() - k,
    {
        assert(wview.take(k + 1).drop_last() =~= wview.take(k as int));
        assert(lines_view(wrapped@[k as int]@).len() == wrapped@[k as int].len());
        if wrapped[k].len() > height {
            height = wrapped[k].len();
        }
        k += 1;
    }
    assert(wview.take(wrapped.len() as int) =~= wview);
    if wrapped.len() == 0 {
        height = 1;
    }
    let ghost lines = spec_render_row(rv, wv, header);
    let ghost base = drawn_view(out@);
    let mut li: usize = 0;
    while li < height
        invariant
            li <= height == row_height(wview),
            wv == widths_view(widths@),
            wrapped.len() == widths.len(),
            wview == Seq::new(wrapped.len() as nat, |x: int| lines_view(wrapped@[x]@)),
            wview == spec_wrapped,
            lines == spec_render_row(rv, wv, header),
            spec_wrapped == row_wrapped(rv, wv, header),
            drawn_view(out@) == base + lines.take(li as int).map_values(|l: Seq<RunModel>| (l, src)),
        decreases height - li,
    {
        let mut line: Vec<Run> = Vec::new();
        line.push(rule_run());
        assert(cell_view(line@) =~= seq![framed(seq!['│'])] + segments_upto(wview, wv, li as int, 0));
        let mut c: usize = 0;
        while c < widths.len()
            invariant
                c <= widths.len() == wrapped.len(),
                wv == widths_view(widths@),
                wview == Seq::new(wrapped.len() as nat, |x: int| lines_view(wrapped@[x]@)),
                cell_view(line@) == seq![framed(seq!['│'])] + segments_upto(wview, wv, li as int, c as int),
            decreases widths.len() - c,
        {
            let ghost before = cell_view(line@);
            let w = widths[c];
            let mut sp: Vec<char> = Vec::new();
            sp.push(' ');
            assert(sp@ =~= seq![' ']);
            line.push(plain_run(sp));
            assert(cell_view(line@) =~= before.push(plain(seq![' '])));
            let ghost content: Seq<RunModel>;
            let used: usize;
            if li < wrapped[c].len() {
                let src_line = &wrapped[c][li];
                let mut j: usize = 0;
                let ghost mid = cell_view(line@);
                while j < src_line.len()
                    invariant
                        j <= src_line.len(),
                        cell_view(line@) == mid + cell_view(src_line@.take(j as int)),
                    decreases src_line.len() - j,
                {
                    let ghost p = cell_view(line@);
                    let r = copy_run(&src_line[j]);
                    let ghost rm = r@;
                    line.push(r);
                    assert(cell_view(line@) =~= p.push(rm));
                    assert(cell_view(src_line@.take(j + 1)) =~= cell_view(src_line@.take(j as int)).push(src_line@[j as int]@));
                    j += 1;
                }
                assert(src_line@.take(src_line.len() as int) =~= src_line@);
                used = cell_width(src_line.as_slice());
                proof {
                    content = cell_view(src_line@);
                    assert(content == wview[c as int][li as int]);
                    assert(cell_view(line@) =~= before.push(plain(seq![' '])) + content);
                }
            } else {
                let mut blank: Vec<char> = Vec::new();
                push_repeated(&mut blank, ' ', w);
                assert(blank@ =~= repeated(' ', w as int));
                let b = plain_run(blank);
                let ghost bv = b@;
                let mut one: Vec<Run> = Vec::new();
                one.push(b);
                used = cell_width(one.as_slice());
                proof {
                    content = seq![bv];
                    assert(cell_view(one@) =~= content);
                }
                let b2 = one.pop().unwrap();
                let ghost p = cell_view(line@);
                line.push(b2);
                assert(cell_view(line@) =~= p.push(bv));
                assert(cell_view(line@) =~= before.push(plain(seq![' '])) + content);
            }
            assert(used == spec_cell_width(content));
            let pad: usize = if w > used { w - used } else { 0 };
            let mut tail: Vec<char> = Vec::new();
            push_repeated(&mut tail, ' ', pad);
            tail.push(' ');
            assert(tail@ =~= repeated(' ', pad as int).push(' '));
            assert(pad == (if w > runs_width(content) { w - runs_width(content) } else { 0 }));
            let ghost p1 = cell_view(line@);
            line.push(plain_run(tail));
            line.push(rule_run());
            assert(cell_view(line@) =~= p1 + seq![plain(repeated(' ', pad as int).push(' ')), framed(seq!['│'])]);
            assert(cell_view(line@) =~= before + cell_segment(wview, wv, c as int, li as int));
            proof {
                assert(segments_upto(wview, wv, li as int, c + 1) == segments_upto(wview, wv, li as int, c as int) + cell_segment(wview, wv, c as int, li as int));
                assert(cell_view(line@) =~= seq![framed(seq!['│'])] + segments_upto(wview, wv, li as int, c + 1));
            }
            c += 1;
        }
        assert(cell_view(line@) == lines[li as int]);
        let ghost prev = drawn_view(out@);
        out.push((line, src));
        assert(drawn_view(out@) =~= prev.push((lines[li as int], src)));
        assert(lines.take(li + 1) =~= lines.take(li as int).push(lines[li as int]));
        li += 1;
    }
    assert(lines.take(height as int) =~= lines);
}


/// The name line: `table:` and the name, in the look of a block label.
pub open spec fn name_line(t: PageTable) -> RunModel {
    RunModel { text: seq!['t', 'a', 'b', 'l', 'e', ':'] + t.name@, layers: seq![Layer::BlockLabel] }
}

/// The lines of the first `k` rows: each row after a separator where the
/// table had to shrink (every row but the first) or under the header
/// (the second row), the separator tagged with the row below it.
pub open spec fn body_upto(t: PageTable, widths: Seq<int>, constrained: bool, k: int) -> Seq<(Seq<RunModel>, usize)>
    decreases k,
{
    if k <= 0 {
        Seq::empty()
    } else {
        let ri = k - 1;
        let src = t.rows@[ri].0;
        let sep = if (constrained && ri > 0) || ri == 1 {
            seq![(seq![spec_border(widths, '├', '┼', '┤')], src)]
        } else {
            Seq::empty()
        };
        body_upto(t, widths, constrained, k - 1) + sep + spec_render_row(row_cells(t.rows@[ri]), widths, ri == 0).map_values(
            |l: Seq<RunModel>| (l, src),
        )
    }
}

/// The whole table in `available` columns: the name line (when it has a
/// name) and the top border tagged with the opener, the rows, the bottom
/// border tagged with the last row.
pub open spec fn spec_layout(t: PageTable, available: int) -> Seq<(Seq<RunModel>, usize)> {
    let head = if t.name@.len() > 0 { seq![(seq![name_line(t)], t.name_src)] } else { Seq::empty() };
    let rv = rows_view(t);
    let cols = max_cells(rv);
    if cols == 0 {
        head
    } else {
        let widths = spec_column_widths(rv, cols, available).0;
        let constrained = spec_column_widths(rv, cols, available).1;
        let last_src = if t.rows.len() == 0 { t.name_src } else { t.rows@.last().0 };
        head + seq![(seq![spec_border(widths, '┌', '┬', '┐')], t.name_src)] + body_upto(
            t,
            widths,
            constrained,
            t.rows.len() as int,
        ) + seq![(seq![spec_border(widths, '└', '┴', '┘')], last_src)]
    }
}

impl PageTable {
    /// Lay the table out within `available` display columns; each line
    /// carries the source line it belongs to (see `spec_layout`).
    pub fn layout(&self, available: usize) -> (out: Vec<(Vec<Run>, usize)>)
        ensures
            drawn_view(out@) == spec_layout(*self, available as int),
    {
        let cols = self.column_count();
        let mut out: Vec<(Vec<Run>, usize)> = Vec::new();
        let ghost head: Seq<(Seq<RunModel>, usize)> = if self.name@.len() > 0 {
            seq![(seq![name_line(*self)], self.name_src)]
        } else {
            Seq::empty()
        };
        if self.name.as_str().unicode_len() > 0 {
            let mut cs: Vec<char> = Vec::new();
            cs.push('t');
            cs.push('a');
            cs.push('b');
            cs.push('l');
            cs.push('e');
            cs.push(':');
            let name = chars_of(self.name.as_str());
            let mut k: usize = 0;
            let ghost pre = cs@;
            while k < name.len()
                invariant
                    k <= name.len(),
                    cs@ == pre + name@.take(k as int),
                decreases name.len() - k,
            {
                cs.push(name[k]);
                k += 1;
                assert(cs@ =~= pre + name@.take(k as int));
            }
            assert(cs@ =~= seq!['t', 'a', 'b', 'l', 'e', ':'] + self.name@);
            let mut look: Vec<Layer> = Vec::new();
            look.push(Layer::BlockLabel);
            assert(look@ =~= seq![Layer::BlockLabel]);
            let mut line: Vec<Run> = Vec::new();
            let nr = Run { text: string_of(cs.as_slice()), layers: look };
            assert(nr@ == name_line(*self));
            line.push(nr);
            assert(cell_view(line@) =~= seq![name_line(*self)]);
            out.push((line, self.name_src));
            assert(drawn_view(out@) =~= head);
        } else {
            assert(drawn_view(out@) =~= head);
        }
        if cols == 0 {
            return out;
        }
        let (widths, constrained) = self.column_widths(cols, available);
        let ghost rv = rows_view(*self);
        let ghost wv = widths_view(widths@);
        assert(wv =~= spec_column_widths(rv, cols as int, available as int).0);
        let ghost top = drawn_view(out@);
        let mut first: Vec<Run> = Vec::new();
        let b = border(&widths, '┌', '┬', '┐');
        let ghost bv = b@;
        first.push(b);
        assert(cell_view(first@) =~= seq![bv]);
        out.push((first, self.name_src));
        assert(drawn_view(out@) =~= top.push((seq![spec_border(wv, '┌', '┬', '┐')], self.name_src)));
        let ghost start = drawn_view(out@);
        let mut last_src = self.name_src;
        let mut ri: usize = 0;
        while ri < self.rows.len()
            invariant
                ri <= self.rows.len(),
                wv == widths_view(widths@),
                drawn_view(out@) == start + body_upto(*self, wv, constrained, ri as int),
                last_src == (if ri == 0 { self.name_src } else { self.rows@[ri - 1].0 }),
            decreases self.rows.len() - ri,
        {
            let src = self.rows[ri].0;
            let ghost p = drawn_view(out@);
            if (constrained && ri > 0) || ri == 1 {
                let mut sep: Vec<Run> = Vec::new();
                let b = border(&widths, '├', '┼', '┤');
                let ghost bv = b@;
                sep.push(b);
                assert(cell_view(sep@) =~= seq![bv]);
                out.push((sep, src));
                assert(drawn_view(out@) =~= p.push((seq![spec_border(wv, '├', '┼', '┤')], src)));
            }
            render_row(&mut out, &self.rows[ri].1, &widths, ri == 0, src);
            assert(drawn_view(out@) =~= start + body_upto(*self, wv, constrained, ri + 1));
            last_src = src;
            ri += 1;
        }
        let ghost end = drawn_view(out@);
        let mut last: Vec<Run> = Vec::new();
        let b = border(&widths, '└', '┴', '┘');
        let ghost bv = b@;
        last.push(b);
        assert(cell_view(last@) =~= seq![bv]);
        out.push((last, last_src));
        assert(drawn_view(out@) =~= end.push((seq![spec_border(wv, '└', '┴', '┘')], last_src)));
        out
    }
}

} // verus!
