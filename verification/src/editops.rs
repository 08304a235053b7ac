//! Whole-page editing: diff the page's lines against an edited text and
//! emit minimal lineId-based [`EditOp`]s.
//!
//! Unchanged lines keep their ids (permalinks, telomere, comments stay
//! attached), 1:1 changed lines become `replace` (id preserved!), and only
//! genuinely added/removed lines become insert/delete. Anchors are always
//! KEPT lines, so the ops survive the server's fast-forward check whenever
//! the page itself has not moved.
use vstd::prelude::*;
use crate::api::{EditOp, OpModel, PageLine, LineModel, end_anchor, end_anchor_string, pair_view};
use crate::text::{str_eq, copy_str, join_strs, join_with, split_on};

verus! {

/// One step of the line-level edit script.
#[derive(Clone, Copy, PartialEq, Eq, Debug, Structural)]
pub enum Step {
    /// old[i] == new[j], both advance.
    Match,
    /// old line removed.
    Del,
    /// new line added.
    Ins,
}

/// The LCS table is allowed this many cells. Beyond it the middle of the
/// page is paired positionally instead (see `edit_script`): the ops stay
/// correct, only the pairing is no longer the smallest possible one.
pub const LCS_CELL_CAP: usize = 4_000_000;

// ---------------------------------------------------------------------------
// The edit script, as mathematics
// ---------------------------------------------------------------------------

/// Does `steps` consume exactly the lines of `o` and produce exactly the
/// lines of `n`, pairing only equal lines in a `Match`?
pub open spec fn replays(steps: Seq<Step>, o: Seq<Seq<char>>, n: Seq<Seq<char>>) -> bool
    decreases steps.len(),
{
    if steps.len() == 0 {
        o.len() == 0 && n.len() == 0
    } else {
        match steps[0] {
            Step::Match => o.len() > 0 && n.len() > 0 && o[0] == n[0] && replays(
                steps.drop_first(),
                o.drop_first(),
                n.drop_first(),
            ),
            Step::Del => o.len() > 0 && replays(steps.drop_first(), o.drop_first(), n),
            Step::Ins => n.len() > 0 && replays(steps.drop_first(), o, n.drop_first()),
        }
    }
}

/// `k` copies of one step.
pub open spec fn run(s: Step, k: nat) -> Seq<Step> {
    Seq::new(k, |_i: int| s)
}

/// Length of the common run of equal lines starting at `k` in both.
pub open spec fn head_from(o: Seq<Seq<char>>, n: Seq<Seq<char>>, k: int) -> int
    decreases o.len() - k,
{
    if 0 <= k && k < o.len() && k < n.len() && o[k] == n[k] {
        head_from(o, n, k + 1)
    } else {
        k
    }
}

/// Lines shared at the top.
pub open spec fn common_head(o: Seq<Seq<char>>, n: Seq<Seq<char>>) -> int {
    head_from(o, n, 0)
}

/// Lines shared at the bottom.
pub open spec fn common_tail(o: Seq<Seq<char>>, n: Seq<Seq<char>>) -> int {
    head_from(o.reverse(), n.reverse(), 0)
}

/// Length of a longest common subsequence of `o[i..]` and `n[j..]`.
pub open spec fn lcs(o: Seq<Seq<char>>, n: Seq<Seq<char>>, i: int, j: int) -> nat
    decreases o.len() - i + n.len() - j,
{
    if i < 0 || j < 0 || i >= o.len() || j >= n.len() {
        0
    } else if o[i] == n[j] {
        1 + lcs(o, n, i + 1, j + 1)
    } else {
        let a = lcs(o, n, i + 1, j);
        let b = lcs(o, n, i, j + 1);
        if a >= b {
            a
        } else {
            b
        }
    }
}

/// The script the LCS table reads off from `(i, j)`: equal lines match,
/// otherwise the side whose removal keeps the longer common part goes
/// (deletions first on ties); what is left over is deleted, then inserted.
pub open spec fn lcs_steps(o: Seq<Seq<char>>, n: Seq<Seq<char>>, i: int, j: int) -> Seq<Step>
    decreases o.len() - i + n.len() - j,
{
    if 0 <= i < o.len() && 0 <= j < n.len() {
        if o[i] == n[j] {
            seq![Step::Match] + lcs_steps(o, n, i + 1, j + 1)
        } else if lcs(o, n, i + 1, j) >= lcs(o, n, i, j + 1) {
            seq![Step::Del] + lcs_steps(o, n, i + 1, j)
        } else {
            seq![Step::Ins] + lcs_steps(o, n, i, j + 1)
        }
    } else if 0 <= i && 0 <= j {
        run(Step::Del, (o.len() - i) as nat) + run(Step::Ins, (n.len() - j) as nat)
    } else {
        Seq::empty()
    }
}

/// The middle of the pages once the shared head and tail are set aside.
pub open spec fn mid(s: Seq<Seq<char>>, head: int, tail: int) -> Seq<Seq<char>> {
    s.subrange(head, s.len() - tail)
}

/// The whole edit script: the shared head matched, the middle by LCS when
/// its table fits under [`LCS_CELL_CAP`] and otherwise paired
/// positionally (all deletions, then all insertions), the shared tail
/// matched.
pub open spec fn spec_edit_script(o: Seq<Seq<char>>, n: Seq<Seq<char>>) -> Seq<Step> {
    let head = common_head(o, n);
    let tail = common_tail(o.skip(head), n.skip(head));
    let mo = mid(o, head, tail);
    let mn = mid(n, head, tail);
    let middle = if mo.len() * mn.len() <= LCS_CELL_CAP {
        lcs_steps(mo, mn, 0, 0)
    } else {
        run(Step::Del, mo.len()) + run(Step::Ins, mn.len())
    };
    run(Step::Match, head as nat) + middle + run(Step::Match, tail as nat)
}

// ---------------------------------------------------------------------------
// Lemmas on scripts
// ---------------------------------------------------------------------------

proof fn lemma_replays_concat(a: Seq<Step>, o1: Seq<Seq<char>>, n1: Seq<Seq<char>>, b: Seq<Step>, o2: Seq<Seq<char>>, n2: Seq<Seq<char>>)
    requires
        replays(a, o1, n1),
        replays(b, o2, n2),
    ensures
        replays(a + b, o1 + o2, n1 + n2),
    decreases a.len(),
{
    if a.len() == 0 {
        assert(a + b =~= b);
        assert(o1 + o2 =~= o2);
        assert(n1 + n2 =~= n2);
    } else {
        assert((a + b).drop_first() =~= a.drop_first() + b);
        match a[0] {
            Step::Match => {
                lemma_replays_concat(a.drop_first(), o1.drop_first(), n1.drop_first(), b, o2, n2);
                assert((o1 + o2).drop_first() =~= o1.drop_first() + o2);
                assert((n1 + n2).drop_first() =~= n1.drop_first() + n2);
            },
            Step::Del => {
                lemma_replays_concat(a.drop_first(), o1.drop_first(), n1, b, o2, n2);
                assert((o1 + o2).drop_first() =~= o1.drop_first() + o2);
            },
            Step::Ins => {
                lemma_replays_concat(a.drop_first(), o1, n1.drop_first(), b, o2, n2);
                assert((n1 + n2).drop_first() =~= n1.drop_first() + n2);
            },
        }
    }
}

proof fn lemma_run_del_ins_replays(o: Seq<Seq<char>>, n: Seq<Seq<char>>)
    ensures
        replays(run(Step::Del, o.len()) + run(Step::Ins, n.len()), o, n),
    decreases o.len() + n.len(),
{
    let s = run(Step::Del, o.len()) + run(Step::Ins, n.len());
    if o.len() > 0 {
        lemma_run_del_ins_replays(o.drop_first(), n);
        assert(s.drop_first() =~= run(Step::Del, o.drop_first().len()) + run(Step::Ins, n.len()));
    } else if n.len() > 0 {
        lemma_run_del_ins_replays(o, n.drop_first());
        assert(s.drop_first() =~= run(Step::Del, o.len()) + run(Step::Ins, n.drop_first().len()));
    } else {
        assert(s =~= Seq::<Step>::empty());
    }
}

proof fn lemma_run_match_replays(o: Seq<Seq<char>>, n: Seq<Seq<char>>)
    requires
        o == n,
    ensures
        replays(run(Step::Match, o.len()), o, n),
    decreases o.len(),
{
    if o.len() > 0 {
        lemma_run_match_replays(o.drop_first(), n.drop_first());
        assert(run(Step::Match, o.len()).drop_first() =~= run(Step::Match, o.drop_first().len()));
    }
}

proof fn lemma_lcs_steps_replays(o: Seq<Seq<char>>, n: Seq<Seq<char>>, i: int, j: int)
    requires
        0 <= i <= o.len(),
        0 <= j <= n.len(),
    ensures
        replays(lcs_steps(o, n, i, j), o.skip(i), n.skip(j)),
    decreases o.len() - i + n.len() - j,
{
    if i < o.len() && j < n.len() {
        let s = lcs_steps(o, n, i, j);
        assert(o.skip(i).drop_first() =~= o.skip(i + 1));
        assert(n.skip(j).drop_first() =~= n.skip(j + 1));
        if o[i] == n[j] {
            lemma_lcs_steps_replays(o, n, i + 1, j + 1);
            assert(s.drop_first() =~= lcs_steps(o, n, i + 1, j + 1));
        } else if lcs(o, n, i + 1, j) >= lcs(o, n, i, j + 1) {
            lemma_lcs_steps_replays(o, n, i + 1, j);
            assert(s.drop_first() =~= lcs_steps(o, n, i + 1, j));
        } else {
            lemma_lcs_steps_replays(o, n, i, j + 1);
            assert(s.drop_first() =~= lcs_steps(o, n, i, j + 1));
        }
    } else {
        lemma_run_del_ins_replays(o.skip(i), n.skip(j));
    }
}

proof fn lemma_head_bounds(o: Seq<Seq<char>>, n: Seq<Seq<char>>, k: int)
    requires
        0 <= k <= o.len(),
        k <= n.len(),
        o.take(k) == n.take(k),
    ensures
        k <= head_from(o, n, k) <= o.len(),
        head_from(o, n, k) <= n.len(),
        o.take(head_from(o, n, k)) == n.take(head_from(o, n, k)),
    decreases o.len() - k,
{
    if k < o.len() && k < n.len() && o[k] == n[k] {
        assert(o.take(k + 1) =~= o.take(k).push(o[k]));
        assert(n.take(k + 1) =~= n.take(k).push(n[k]));
        lemma_head_bounds(o, n, k + 1);
    }
}

proof fn lemma_lcs_bounded(o: Seq<Seq<char>>, n: Seq<Seq<char>>, i: int, j: int)
    requires
        0 <= i <= o.len(),
        0 <= j <= n.len(),
    ensures
        lcs(o, n, i, j) <= n.len() - j,
        lcs(o, n, i, j) <= o.len() - i,
    decreases o.len() - i + n.len() - j,
{
    if i < o.len() && j < n.len() {
        if o[i] == n[j] {
            lemma_lcs_bounded(o, n, i + 1, j + 1);
        } else {
            lemma_lcs_bounded(o, n, i + 1, j);
            lemma_lcs_bounded(o, n, i, j + 1);
        }
    }
}

/// The whole script replays the two pages.
pub proof fn lemma_edit_script_replays(o: Seq<Seq<char>>, n: Seq<Seq<char>>)
    ensures
        replays(spec_edit_script(o, n), o, n),
{
    let head = common_head(o, n);
    assert(o.take(0) =~= n.take(0));
    lemma_head_bounds(o, n, 0);
    let os = o.skip(head);
    let ns = n.skip(head);
    let ro = os.reverse();
    let rn = ns.reverse();
    assert(ro.take(0) =~= rn.take(0));
    lemma_head_bounds(ro, rn, 0);
    let tail = common_tail(os, ns);
    let mo = mid(o, head, tail);
    let mn = mid(n, head, tail);
    // the tail lines agree
    let to = o.skip(o.len() - tail);
    let tn = n.skip(n.len() - tail);
    assert forall|k: int| 0 <= k < tail implies to[k] == tn[k] by {
        assert(to[k] == ro[tail - 1 - k]);
        assert(tn[k] == rn[tail - 1 - k]);
        assert(ro.take(tail)[tail - 1 - k] == rn.take(tail)[tail - 1 - k]);
    }
    assert(to =~= tn);
    lemma_run_match_replays(o.take(head), n.take(head));
    lemma_run_match_replays(to, tn);
    let middle = if mo.len() * mn.len() <= LCS_CELL_CAP {
        lcs_steps(mo, mn, 0, 0)
    } else {
        run(Step::Del, mo.len()) + run(Step::Ins, mn.len())
    };
    if mo.len() * mn.len() <= LCS_CELL_CAP {
        lemma_lcs_steps_replays(mo, mn, 0, 0);
        assert(mo.skip(0) =~= mo);
        assert(mn.skip(0) =~= mn);
    } else {
        lemma_run_del_ins_replays(mo, mn);
    }
    lemma_replays_concat(run(Step::Match, head as nat), o.take(head), n.take(head), middle, mo, mn);
    lemma_replays_concat(run(Step::Match, head as nat) + middle, o.take(head) + mo, n.take(head) + mn,
        run(Step::Match, tail as nat), to, tn);
    assert(o.take(head) + mo + to =~= o);
    assert(n.take(head) + mn + tn =~= n);
}

// ---------------------------------------------------------------------------
// The edit script, executable
// ---------------------------------------------------------------------------

fn push_run(steps: &mut Vec<Step>, s: Step, k: usize)
    ensures
        final(steps)@ == old(steps)@ + run(s, k as nat),
{
    let mut i: usize = 0;
    while i < k
        invariant
            i <= k,
            steps@ == old(steps)@ + run(s, i as nat),
        decreases k - i,
    {
        steps.push(s);
        i += 1;
        assert(steps@ =~= old(steps)@ + run(s, i as nat));
    }
}

/// Edit script over line texts.
///
/// The lines shared at the top and bottom are matched first without any
/// table. Only the middle is diffed by LCS, whose time and memory are the
/// product of the two middle lengths. When even that is too large
/// (`LCS_CELL_CAP`) the middle is paired line by line: the extra lines on
/// one side become inserts or deletes. Either way every old line is
/// consumed and every new line is produced exactly once.
pub fn edit_script(old: &[&str], new: &[&str]) -> (steps: Vec<Step>)
    requires
        old.len() + new.len() < usize::MAX / 2,
    ensures
        steps@ == spec_edit_script(old.deep_view(), new.deep_view()),
        replays(steps@, old.deep_view(), new.deep_view()),
{
    let ghost o = old.deep_view();
    let ghost n = new.deep_view();
    let mut head: usize = 0;
    while head < old.len() && head < new.len() && str_eq(old[head], new[head])
        invariant
            head <= old.len(),
            head <= new.len(),
            o == old.deep_view(),
            n == new.deep_view(),
            head_from(o, n, 0) == head_from(o, n, head as int),
        decreases old.len() - head,
    {
        head += 1;
    }
    let ghost os = o.skip(head as int);
    let ghost ns = n.skip(head as int);
    let mut tail: usize = 0;
    while tail < old.len() - head && tail < new.len() - head
        && str_eq(old[old.len() - 1 - tail], new[new.len() - 1 - tail])
        invariant
            head <= old.len(),
            head <= new.len(),
            tail <= old.len() - head,
            tail <= new.len() - head,
            o == old.deep_view(),
            n == new.deep_view(),
            os == o.skip(head as int),
            ns == n.skip(head as int),
            head_from(os.reverse(), ns.reverse(), 0) == head_from(os.reverse(), ns.reverse(), tail as int),
        decreases old.len() - tail,
    {
        assert(os.reverse()[tail as int] == o[old.len() - 1 - tail]);
        assert(ns.reverse()[tail as int] == n[new.len() - 1 - tail]);
        tail += 1;
    }
    assert(tail as int == common_tail(os, ns));
    let mut mid_old: Vec<&str> = Vec::new();
    let mut k = head;
    while k < old.len() - tail
        invariant
            head <= k <= old.len() - tail,
            o == old.deep_view(),
            mid_old.len() == k - head,
            forall|x: int| 0 <= x < mid_old.len() ==> (#[trigger] mid_old@[x])@ == o[head + x],
        decreases old.len() - tail - k,
    {
        mid_old.push(old[k]);
        k += 1;
    }
    assert(mid_old.deep_view() =~= o.subrange(head as int, (old.len() - tail) as int));
    let mut mid_new: Vec<&str> = Vec::new();
    let mut k = head;
    while k < new.len() - tail
        invariant
            head <= k <= new.len() - tail,
            n == new.deep_view(),
            mid_new.len() == k - head,
            forall|x: int| 0 <= x < mid_new.len() ==> (#[trigger] mid_new@[x])@ == n[head + x],
        decreases new.len() - tail - k,
    {
        mid_new.push(new[k]);
        k += 1;
    }
    assert(mid_new.deep_view() =~= n.subrange(head as int, (new.len() - tail) as int));
    let mut steps: Vec<Step> = Vec::new();
    push_run(&mut steps, Step::Match, head);
    let small = match mid_old.len().checked_mul(mid_new.len()) {
        Some(p) => p <= LCS_CELL_CAP,
        None => false,
    };
    if small {
        lcs_script(mid_old.as_slice(), mid_new.as_slice(), &mut steps);
    } else {
        positional_script(mid_old.len(), mid_new.len(), &mut steps);
    }
    push_run(&mut steps, Step::Match, tail);
    proof {
        lemma_edit_script_replays(o, n);
    }
    steps
}

/// The classic O(n·m) LCS script, appended to `steps`.
fn lcs_script(xs: &[&str], ys: &[&str], steps: &mut Vec<Step>)
    requires
        xs.len() * ys.len() <= LCS_CELL_CAP,
        xs.len() + ys.len() < usize::MAX / 2,
    ensures
        final(steps)@ == old(steps)@ + lcs_steps(xs.deep_view(), ys.deep_view(), 0, 0),
{
    let ghost o = xs.deep_view();
    let ghost nn = ys.deep_view();
    let n = xs.len();
    let m = ys.len();
    proof {
        if n >= 1 && m >= 1 {
            assert(m <= n * m) by (nonlinear_arith)
                requires
                    n >= 1,
                    m >= 1,
            ;
        }
    }
    // rows@[r] is row `n - r` of the table: rows@[r]@[j] == lcs(n - r, j).
    let mut rows: Vec<Vec<u32>> = Vec::new();
    let last_row: Vec<u32> = vec![0u32; m + 1];
    assert forall|j: int| 0 <= j <= m implies last_row@[j] == lcs(o, nn, n as int, j) by {
        assert(cloned(0u32, last_row@[j]));
    }
    rows.push(last_row);
    let mut i: usize = n;
    while i > 0
        invariant
            i <= n == xs.len() == o.len(),
            m == ys.len() == nn.len(),
            o == xs.deep_view(),
            nn == ys.deep_view(),
            n >= 1 && m >= 1 ==> m <= LCS_CELL_CAP,
            rows.len() == n - i + 1,
            forall|r: int, j: int| 0 <= r < rows.len() && 0 <= j <= m ==> (#[trigger] rows@[r]@[j]) == lcs(o, nn, n - r, j),
            forall|r: int| 0 <= r < rows.len() ==> (#[trigger] rows@[r]).len() == m + 1,
        decreases i,
    {
        let below = rows.len() - 1;
        let mut row: Vec<u32> = vec![0u32; m + 1];
        assert forall|jj: int| 0 <= jj <= m implies row@[jj] == 0 by {
            assert(cloned(0u32, row@[jj]));
        }
        let mut j: usize = m;
        while j > 0
            invariant
                0 < i <= n == xs.len() == o.len(),
                m == ys.len() == nn.len(),
                o == xs.deep_view(),
                nn == ys.deep_view(),
                n >= 1 && m >= 1 ==> m <= LCS_CELL_CAP,
                j <= m,
                below == rows.len() - 1,
                rows.len() == n - i + 1,
                forall|r: int, jj: int| 0 <= r < rows.len() && 0 <= jj <= m ==> (#[trigger] rows@[r]@[jj]) == lcs(o, nn, n - r, jj),
                forall|r: int| 0 <= r < rows.len() ==> (#[trigger] rows@[r]).len() == m + 1,
                row.len() == m + 1,
                row@[m as int] == 0,
                forall|jj: int| j <= jj <= m ==> row@[jj] == lcs(o, nn, i - 1, jj),
            decreases j,
        {
            let jj = j - 1;
            let ii = i - 1;
            proof {
                lemma_lcs_bounded(o, nn, ii + 1, jj + 1);
                lemma_lcs_bounded(o, nn, ii + 1, jj as int);
                lemma_lcs_bounded(o, nn, ii as int, jj + 1);
            }
            let v = if str_eq(xs[ii], ys[jj]) {
                rows[below][jj + 1] + 1
            } else {
                let a = rows[below][jj];
                let b = row[jj + 1];
                if a >= b {
                    a
                } else {
                    b
                }
            };
            row.set(jj, v);
            j -= 1;
        }
        assert(row@[m as int] == lcs(o, nn, i - 1, m as int));
        rows.push(row);
        i -= 1;
    }
    // rows@[n - i]@[j] == lcs(i, j)
    let ghost start = steps@;
    let mut i: usize = 0;
    let mut j: usize = 0;
    while i < n && j < m
        invariant
            i <= n == xs.len() == o.len(),
            j <= m == ys.len() == nn.len(),
            o == xs.deep_view(),
            nn == ys.deep_view(),
            rows.len() == n + 1,
            forall|r: int, jj: int| 0 <= r < rows.len() && 0 <= jj <= m ==> (#[trigger] rows@[r]@[jj]) == lcs(o, nn, n - r, jj),
            forall|r: int| 0 <= r < rows.len() ==> (#[trigger] rows@[r]).len() == m + 1,
            steps@ + lcs_steps(o, nn, i as int, j as int) == start + lcs_steps(o, nn, 0, 0),
        decreases n - i + m - j,
    {
        let ghost before = steps@;
        if str_eq(xs[i], ys[j]) {
            steps.push(Step::Match);
            i += 1;
            j += 1;
        } else if rows[n - i - 1][j] >= rows[n - i][j + 1] {
            steps.push(Step::Del);
            i += 1;
        } else {
            steps.push(Step::Ins);
            j += 1;
        }
        assert(steps@ + lcs_steps(o, nn, i as int, j as int) =~= before + lcs_steps(o, nn, (if steps@.last() == Step::Ins { i } else { (i - 1) as usize }) as int, (if steps@.last() == Step::Del { j } else { (j - 1) as usize }) as int));
    }
    push_run(steps, Step::Del, n - i);
    push_run(steps, Step::Ins, m - j);
    assert(steps@ =~= start + lcs_steps(o, nn, 0, 0));
}

/// Pair `n` old lines with `m` new lines in order, no table. Emitted as
/// one hunk (all deletes, then all inserts) so `diff_to_ops` pairs them
/// into replaces exactly as it would a changed region of the same shape.
fn positional_script(n: usize, m: usize, steps: &mut Vec<Step>)
    ensures
        final(steps)@ == old(steps)@ + run(Step::Del, n as nat) + run(Step::Ins, m as nat),
{
    push_run(steps, Step::Del, n);
    push_run(steps, Step::Ins, m);
}

// ---------------------------------------------------------------------------
// From script to operations
// ---------------------------------------------------------------------------

/// An operation with the ids of inserted lines left out: those are fresh
/// and random, everything else is determined.
pub enum OpShape {
    Insert { anchor: Seq<char>, texts: Seq<Seq<char>> },
    Replace { id: Seq<char>, text: Seq<char> },
    Delete { id: Seq<char> },
}

pub open spec fn shape(op: OpModel) -> OpShape {
    match op {
        OpModel::Insert { anchor, lines } => OpShape::Insert {
            anchor,
            texts: lines.map_values(|l: (Seq<char>, Seq<char>)| l.1),
        },
        OpModel::Replace { id, text } => OpShape::Replace { id, text },
        OpModel::Delete { id } => OpShape::Delete { id },
    }
}

pub open spec fn shapes(ops: Seq<EditOp>) -> Seq<OpShape> {
    ops.map_values(|op: EditOp| shape(op@))
}

/// Every line an insert brings carries a well-formed fresh id.
pub open spec fn insert_ids_ok(ops: Seq<EditOp>) -> bool {
    forall|k: int, l: int| 0 <= k < ops.len() && (#[trigger] ops[k])@ is Insert
        && 0 <= l < ops[k]@->Insert_lines.len() ==> crate::api::is_line_id(
            #[trigger] ops[k]@->Insert_lines[l].0,
        )
}

/// A page as `(id, text)` values.
pub open spec fn pairs_view(old: Seq<(String, String)>) -> Seq<(Seq<char>, Seq<char>)> {
    old.map_values(|p: (String, String)| pair_view(p))
}

pub open spec fn texts_of(ov: Seq<(Seq<char>, Seq<char>)>) -> Seq<Seq<char>> {
    ov.map_values(|p: (Seq<char>, Seq<char>)| p.1)
}

pub open spec fn indices(v: Seq<usize>) -> Seq<int> {
    v.map_values(|x: usize| x as int)
}

pub open spec fn min_len(a: int, b: int) -> int {
    if a <= b { a } else { b }
}

/// The operations of one changed region: removed and added lines paired
/// into replaces top to bottom, the removed rest deleted, the added rest
/// one insert before `anchor`.
pub open spec fn hunk_ops(
    ov: Seq<(Seq<char>, Seq<char>)>,
    nv: Seq<Seq<char>>,
    dels: Seq<int>,
    inss: Seq<int>,
    anchor: Seq<char>,
) -> Seq<OpShape> {
    let p = min_len(dels.len() as int, inss.len() as int);
    Seq::new(p as nat, |k: int| OpShape::Replace { id: ov[dels[k]].0, text: nv[inss[k]] })
        + Seq::new((dels.len() - p) as nat, |k: int| OpShape::Delete { id: ov[dels[p + k]].0 })
        + if inss.len() > p {
        seq![
            OpShape::Insert {
                anchor,
                texts: split_on(
                    join_with(Seq::new((inss.len() - p) as nat, |k: int| nv[inss[p + k]]), seq!['\n']),
                    '\n',
                ),
            },
        ]
    } else {
        Seq::empty()
    }
}

/// Walk the script from step `s`, old line `i`, new line `j`, with the
/// open region's removed (`dels`) and added (`inss`) lines.
pub open spec fn diff_walk(
    ov: Seq<(Seq<char>, Seq<char>)>,
    nv: Seq<Seq<char>>,
    steps: Seq<Step>,
    s: int,
    i: int,
    j: int,
    dels: Seq<int>,
    inss: Seq<int>,
) -> Seq<OpShape>
    decreases steps.len() - s,
{
    if s < 0 || s >= steps.len() {
        if dels.len() > 0 || inss.len() > 0 {
            hunk_ops(ov, nv, dels, inss, end_anchor())
        } else {
            Seq::empty()
        }
    } else {
        match steps[s] {
            Step::Match => (if dels.len() > 0 || inss.len() > 0 {
                hunk_ops(ov, nv, dels, inss, ov[i].0)
            } else {
                Seq::empty()
            }) + diff_walk(ov, nv, steps, s + 1, i + 1, j + 1, Seq::empty(), Seq::empty()),
            Step::Del => diff_walk(ov, nv, steps, s + 1, i + 1, j, dels.push(i), inss),
            Step::Ins => diff_walk(ov, nv, steps, s + 1, i, j + 1, dels, inss.push(j)),
        }
    }
}

/// The operations that turn the page `ov` into the texts `nv`.
pub open spec fn spec_diff(ov: Seq<(Seq<char>, Seq<char>)>, nv: Seq<Seq<char>>) -> Seq<OpShape> {
    if nv.len() == 0 {
        Seq::empty()
    } else {
        diff_walk(ov, nv, spec_edit_script(texts_of(ov), nv), 0, 0, 0, Seq::empty(), Seq::empty())
    }
}

fn flush(
    page: &[(String, String)],
    fresh: &[String],
    ops: &mut Vec<EditOp>,
    dels: &Vec<usize>,
    inss: &Vec<usize>,
    anchor: Option<usize>,
)
    requires
        forall|k: int| 0 <= k < dels.len() ==> dels@[k] < page.len(),
        forall|k: int| 0 <= k < inss.len() ==> inss@[k] < fresh.len(),
        anchor matches Some(a) ==> a < page.len(),
        insert_ids_ok(old(ops)@),
    ensures
        insert_ids_ok(final(ops)@),
        shapes(final(ops)@) == shapes(old(ops)@) + hunk_ops(
            pairs_view(page@),
            fresh.deep_view(),
            indices(dels@),
            indices(inss@),
            match anchor {
                Some(a) => pairs_view(page@)[a as int].0,
                None => end_anchor(),
            },
        ),
{
    let ghost ov = pairs_view(page@);
    let ghost nv = fresh.deep_view();
    let ghost start = shapes(ops@);
    let pairs = if dels.len() <= inss.len() { dels.len() } else { inss.len() };
    let mut k: usize = 0;
    while k < pairs
        invariant
            pairs == min_len(dels.len() as int, inss.len() as int),
            k <= pairs,
            ov == pairs_view(page@),
            nv == fresh.deep_view(),
            forall|x: int| 0 <= x < dels.len() ==> dels@[x] < page.len(),
            forall|x: int| 0 <= x < inss.len() ==> inss@[x] < fresh.len(),
            insert_ids_ok(ops@),
            shapes(ops@) == start + Seq::new(k as nat, |x: int| OpShape::Replace { id: ov[dels@[x] as int].0, text: nv[inss@[x] as int] }),
        decreases pairs - k,
    {
        let ghost before = ops@;
        let id = copy_str(page[dels[k]].0.as_str());
        let text = copy_str(fresh[inss[k]].as_str());
        ops.push(EditOp::Replace { id, text });
        assert(shapes(ops@) =~= shapes(before).push(shape(ops@.last()@)));
        k += 1;
        assert(shapes(ops@) =~= start + Seq::new(k as nat, |x: int| OpShape::Replace { id: ov[dels@[x] as int].0, text: nv[inss@[x] as int] }));
    }
    let ghost after_replaces = shapes(ops@);
    let mut k: usize = pairs;
    while k < dels.len()
        invariant
            pairs == min_len(dels.len() as int, inss.len() as int),
            pairs <= k <= dels.len(),
            ov == pairs_view(page@),
            forall|x: int| 0 <= x < dels.len() ==> dels@[x] < page.len(),
            insert_ids_ok(ops@),
            shapes(ops@) == after_replaces + Seq::new((k - pairs) as nat, |x: int| OpShape::Delete { id: ov[dels@[pairs + x] as int].0 }),
        decreases dels.len() - k,
    {
        let ghost before = ops@;
        let id = copy_str(page[dels[k]].0.as_str());
        ops.push(EditOp::Delete { id });
        assert(shapes(ops@) =~= shapes(before).push(shape(ops@.last()@)));
        k += 1;
        assert(shapes(ops@) =~= after_replaces + Seq::new((k - pairs) as nat, |x: int| OpShape::Delete { id: ov[dels@[pairs + x] as int].0 }));
    }
    let ghost after_deletes = shapes(ops@);
    if inss.len() > pairs {
        let mut texts: Vec<String> = Vec::new();
        let mut k: usize = pairs;
        while k < inss.len()
            invariant
                pairs <= k <= inss.len(),
                nv == fresh.deep_view(),
                forall|x: int| 0 <= x < inss.len() ==> inss@[x] < fresh.len(),
                texts.len() == k - pairs,
                forall|x: int| 0 <= x < texts.len() ==> (#[trigger] texts@[x])@ == nv[inss@[pairs + x] as int],
            decreases inss.len() - k,
        {
            texts.push(copy_str(fresh[inss[k]].as_str()));
            k += 1;
        }
        let joined = join_strs(texts.as_slice(), "\n");
        proof {
            reveal_strlit("\n");
            assert("\n"@ =~= seq!['\n']);
            assert(texts.deep_view() =~= Seq::new((inss.len() - pairs) as nat, |x: int| nv[indices(inss@)[pairs + x]]));
        }
        let anchor_id = match anchor {
            Some(a) => copy_str(page[a].0.as_str()),
            None => end_anchor_string(),
        };
        let op = EditOp::insert(anchor_id.as_str(), joined.as_str());
        let ghost before = ops@;
        ops.push(op);
        assert(shapes(ops@) =~= shapes(before).push(shape(op@)));
        assert(anchor_id@ == match anchor { Some(a) => ov[a as int].0, None => end_anchor() });
        assert(joined@ == join_with(Seq::new((inss.len() - pairs) as nat, |x: int| nv[indices(inss@)[pairs + x]]), seq!['\n']));
        assert(shape(op@) is Insert);
        assert(op@->Insert_lines.map_values(|l: (Seq<char>, Seq<char>)| l.1) =~= split_on(joined@, '\n'));
        assert(insert_ids_ok(ops@)) by {
            assert forall|kk: int, l: int| 0 <= kk < ops@.len() && (#[trigger] ops@[kk])@ is Insert
                && 0 <= l < ops@[kk]@->Insert_lines.len() implies crate::api::is_line_id(
                    #[trigger] ops@[kk]@->Insert_lines[l].0) by {
                if kk < before.len() {
                    assert(ops@[kk] == before[kk]);
                }
            }
        }
    }
    let ghost anchor_text = match anchor {
        Some(a) => ov[a as int].0,
        None => end_anchor(),
    };
    let ghost dv = indices(dels@);
    let ghost iv = indices(inss@);
    assert(Seq::new(pairs as nat, |x: int| OpShape::Replace { id: ov[dels@[x] as int].0, text: nv[inss@[x] as int] })
        =~= Seq::new(pairs as nat, |k: int| OpShape::Replace { id: ov[dv[k]].0, text: nv[iv[k]] }));
    assert(Seq::new((dels.len() - pairs) as nat, |x: int| OpShape::Delete { id: ov[dels@[pairs + x] as int].0 })
        =~= Seq::new((dv.len() - pairs) as nat, |k: int| OpShape::Delete { id: ov[dv[pairs + k]].0 }));
    assert(shapes(ops@) =~= start + hunk_ops(ov, nv, dv, iv, anchor_text));
}

/// Diff `old` (id, text) against `new` texts and emit ops.
///
/// Within one changed region, removed and added lines are paired 1:1 into
/// `replace` (top to bottom, ids preserved); leftovers become deletes or
/// one multi-line insert anchored at the next kept line (`_end` at the
/// bottom). An empty `new` returns no ops: deleting every line including
/// the title is page deletion, which is not this function's business.
pub fn diff_to_ops(old: &[(String, String)], new: &[String]) -> (ops: Vec<EditOp>)
    requires
        old.len() + new.len() < usize::MAX / 2,
    ensures
        shapes(ops@) == spec_diff(pairs_view(old@), new.deep_view()),
        insert_ids_ok(ops@),
{
    let ghost ov = pairs_view(old@);
    let ghost nv = new.deep_view();
    if new.len() == 0 {
        assert(shapes(Seq::<EditOp>::empty()) =~= Seq::<OpShape>::empty());
        return Vec::new();
    }
    let mut old_texts: Vec<&str> = Vec::new();
    let mut k: usize = 0;
    while k < old.len()
        invariant
            k <= old.len(),
            ov == pairs_view(old@),
            old_texts.len() == k,
            forall|x: int| 0 <= x < k ==> (#[trigger] old_texts@[x])@ == ov[x].1,
        decreases old.len() - k,
    {
        old_texts.push(old[k].1.as_str());
        k += 1;
    }
    assert(old_texts.deep_view() =~= texts_of(ov));
    let mut new_texts: Vec<&str> = Vec::new();
    let mut k: usize = 0;
    while k < new.len()
        invariant
            k <= new.len(),
            nv == new.deep_view(),
            new_texts.len() == k,
            forall|x: int| 0 <= x < k ==> (#[trigger] new_texts@[x])@ == nv[x],
        decreases new.len() - k,
    {
        new_texts.push(new[k].as_str());
        k += 1;
    }
    assert(new_texts.deep_view() =~= nv);
    let steps = edit_script(old_texts.as_slice(), new_texts.as_slice());
    let ghost to = texts_of(ov);
    let mut ops: Vec<EditOp> = Vec::new();
    let mut i: usize = 0;
    let mut j: usize = 0;
    let mut dels: Vec<usize> = Vec::new();
    let mut inss: Vec<usize> = Vec::new();
    let mut s: usize = 0;
    proof {
        assert(steps@.skip(0) =~= steps@);
        assert(to.skip(0) =~= to);
        assert(nv.skip(0) =~= nv);
        assert(shapes(ops@) =~= Seq::<OpShape>::empty());
        assert(indices(dels@) =~= Seq::<int>::empty());
        assert(indices(inss@) =~= Seq::<int>::empty());
    }
    while s < steps.len()
        invariant
            ov == pairs_view(old@),
            nv == new.deep_view(),
            to == texts_of(ov),
            to.len() == old.len(),
            nv.len() == new.len(),
            steps@ == spec_edit_script(to, nv),
            s <= steps.len(),
            i <= old.len(),
            j <= new.len(),
            replays(steps@.skip(s as int), to.skip(i as int), nv.skip(j as int)),
            forall|x: int| 0 <= x < dels.len() ==> dels@[x] < i,
            forall|x: int| 0 <= x < inss.len() ==> inss@[x] < j,
            insert_ids_ok(ops@),
            shapes(ops@) + diff_walk(ov, nv, steps@, s as int, i as int, j as int, indices(dels@), indices(inss@))
                == spec_diff(ov, nv),
        decreases steps.len() - s,
    {
        let ghost rest = steps@.skip(s as int);
        assert(rest[0] == steps@[s as int]);
        assert(rest.drop_first() =~= steps@.skip(s + 1));
        match steps[s] {
            Step::Match => {
                assert(to.skip(i as int).drop_first() =~= to.skip(i + 1));
                assert(nv.skip(j as int).drop_first() =~= nv.skip(j + 1));
                let ghost before = shapes(ops@);
                if dels.len() > 0 || inss.len() > 0 {
                    flush(old, new, &mut ops, &dels, &inss, Some(i));
                }
                dels = Vec::new();
                inss = Vec::new();
                i += 1;
                j += 1;
                assert(indices(dels@) =~= Seq::<int>::empty());
                assert(indices(inss@) =~= Seq::<int>::empty());
            },
            Step::Del => {
                assert(to.skip(i as int).drop_first() =~= to.skip(i + 1));
                let ghost d0 = indices(dels@);
                dels.push(i);
                assert(indices(dels@) =~= d0.push(i as int));
                i += 1;
            },
            Step::Ins => {
                assert(nv.skip(j as int).drop_first() =~= nv.skip(j + 1));
                let ghost n0 = indices(inss@);
                inss.push(j);
                assert(indices(inss@) =~= n0.push(j as int));
                j += 1;
            },
        }
        s += 1;
    }
    if dels.len() > 0 || inss.len() > 0 {
        flush(old, new, &mut ops, &dels, &inss, None);
    }
    assert(shapes(ops@) =~= spec_diff(ov, nv));
    ops
}

// ---------------------------------------------------------------------------
// Applying operations to the local page
// ---------------------------------------------------------------------------

pub open spec fn page_view(v: Seq<PageLine>) -> Seq<LineModel> {
    v.map_values(|l: PageLine| l@)
}

pub open spec fn ops_view(v: Seq<EditOp>) -> Seq<OpModel> {
    v.map_values(|o: EditOp| o@)
}

/// The first line at or after `k` with this id.
pub open spec fn first_index(page: Seq<LineModel>, id: Seq<char>, k: int) -> Option<int>
    decreases page.len() - k,
{
    if k < 0 || k >= page.len() {
        None
    } else if page[k].id == id {
        Some(k)
    } else {
        first_index(page, id, k + 1)
    }
}

/// Where an insert anchored at `anchor` goes: before the anchor line, or at
/// the end for `_end` or an anchor that is not on the page.
pub open spec fn insert_at(page: Seq<LineModel>, anchor: Seq<char>) -> int {
    if anchor == end_anchor() {
        page.len() as int
    } else {
        match first_index(page, anchor, 0) {
            Some(k) => k,
            None => page.len() as int,
        }
    }
}

/// A line created by an insert at time `now`.
pub open spec fn created_line(p: (Seq<char>, Seq<char>), now: i64) -> LineModel {
    LineModel { id: p.0, text: p.1, user_id: Seq::empty(), created: now, updated: now }
}

/// The page without any line carrying `id`.
pub open spec fn without_id(page: Seq<LineModel>, id: Seq<char>) -> Seq<LineModel>
    decreases page.len(),
{
    if page.len() == 0 {
        page
    } else {
        without_id(page.drop_last(), id) + if page.last().id == id {
            Seq::empty()
        } else {
            seq![page.last()]
        }
    }
}

/// The transition one operation makes, on the server and locally alike.
pub open spec fn apply_op(page: Seq<LineModel>, op: OpModel, now: i64) -> Seq<LineModel> {
    match op {
        OpModel::Insert { anchor, lines } => {
            let at = insert_at(page, anchor);
            page.take(at) + lines.map_values(|l: (Seq<char>, Seq<char>)| created_line(l, now)) + page.skip(at)
        },
        OpModel::Replace { id, text } => match first_index(page, id, 0) {
            Some(k) => page.update(
                k,
                LineModel {
                    id: page[k].id,
                    text,
                    user_id: page[k].user_id,
                    created: page[k].created,
                    updated: now,
                },
            ),
            None => page,
        },
        OpModel::Delete { id } => without_id(page, id),
    }
}

/// Operations applied in order.
pub open spec fn apply_all(page: Seq<LineModel>, ops: Seq<OpModel>, now: i64) -> Seq<LineModel>
    decreases ops.len(),
{
    if ops.len() == 0 {
        page
    } else {
        apply_all(apply_op(page, ops[0], now), ops.drop_first(), now)
    }
}

pub(crate) proof fn lemma_apply_all_push(page: Seq<LineModel>, ops: Seq<OpModel>, op: OpModel, now: i64)
    ensures
        apply_all(page, ops.push(op), now) == apply_op(apply_all(page, ops, now), op, now),
    decreases ops.len(),
{
    if ops.len() == 0 {
        assert(ops.push(op)[0] == op);
        assert(ops.push(op).drop_first() =~= Seq::<OpModel>::empty());
        assert(apply_all(page, ops.push(op), now) == apply_all(apply_op(page, op, now), Seq::<OpModel>::empty(), now));
    } else {
        assert(ops.push(op)[0] == ops[0]);
        assert(ops.push(op).drop_first() =~= ops.drop_first().push(op));
        lemma_apply_all_push(apply_op(page, ops[0], now), ops.drop_first(), op, now);
    }
}

fn find_line(lines: &Vec<PageLine>, id: &str) -> (r: Option<usize>)
    ensures
        match r {
            Some(k) => first_index(page_view(lines@), id@, 0) == Some(k as int) && k < lines.len(),
            None => first_index(page_view(lines@), id@, 0) is None,
        },
{
    let ghost pv = page_view(lines@);
    let mut k: usize = 0;
    while k < lines.len()
        invariant
            k <= lines.len(),
            pv == page_view(lines@),
            first_index(pv, id@, 0) == first_index(pv, id@, k as int),
        decreases lines.len() - k,
    {
        if str_eq(lines[k].id.as_str(), id) {
            return Some(k);
        }
        k += 1;
    }
    None
}

fn is_end_anchor(s: &str) -> (r: bool)
    ensures
        r == (s@ == end_anchor()),
{
    let e = end_anchor_string();
    str_eq(s, e.as_str())
}

fn apply_one(lines: &mut Vec<PageLine>, op: &EditOp, now: i64)
    ensures
        page_view(final(lines)@) == apply_op(page_view(old(lines)@), op@, now),
{
    let ghost page = page_view(lines@);
    match op {
        EditOp::Insert { anchor, lines: newl } => {
            let at = if is_end_anchor(anchor.as_str()) {
                lines.len()
            } else {
                match find_line(lines, anchor.as_str()) {
                    Some(k) => k,
                    None => lines.len(),
                }
            };
            let ghost made = newl@.map_values(|p: (String, String)| pair_view(p)).map_values(
                |l: (Seq<char>, Seq<char>)| created_line(l, now));
            let mut k: usize = 0;
            while k < newl.len()
                invariant
                    at <= page.len(),
                    k <= newl.len(),
                    made.len() == newl.len(),
                    lines@.len() == page.len() + k,
                    made == newl@.map_values(|p: (String, String)| pair_view(p)).map_values(
                        |l: (Seq<char>, Seq<char>)| created_line(l, now)),
                    page_view(lines@) == page.take(at as int) + made.take(k as int) + page.skip(at as int),
                decreases newl.len() - k,
            {
                let line = PageLine {
                    id: copy_str(newl[k].0.as_str()),
                    text: copy_str(newl[k].1.as_str()),
                    user_id: String::new(),
                    created: now,
                    updated: now,
                };
                let ghost before = page_view(lines@);
                let cur_len = lines.len();
                assert(at + k <= cur_len);
                lines.insert(at + k, line);
                assert(line@ == made[k as int]);
                assert(page_view(lines@) =~= before.insert(at + k, line@));
                k += 1;
                assert(page_view(lines@) =~= page.take(at as int) + made.take(k as int) + page.skip(at as int));
            }
            assert(made.take(newl.len() as int) =~= made);
        },
        EditOp::Replace { id, text } => {
            if let Some(k) = find_line(lines, id.as_str()) {
                let line = PageLine {
                    id: copy_str(lines[k].id.as_str()),
                    text: copy_str(text.as_str()),
                    user_id: copy_str(lines[k].user_id.as_str()),
                    created: lines[k].created,
                    updated: now,
                };
                lines.set(k, line);
                assert(page_view(lines@) =~= apply_op(page, op@, now));
            }
        },
        EditOp::Delete { id } => {
            let mut i: usize = 0;
            let ghost mut seen: int = 0;
            while i < lines.len()
                invariant
                    0 <= seen <= page.len(),
                    i <= lines.len(),
                    i == without_id(page.take(seen), id@).len(),
                    page_view(lines@) == without_id(page.take(seen), id@) + page.skip(seen),
                decreases page.len() - seen,
            {
                let ghost before = page_view(lines@);
                let ghost sn = seen;
                assert(page.take(sn + 1).drop_last() =~= page.take(sn));
                assert(page.take(sn + 1).last() == page[sn]);
                assert(page.skip(sn) =~= seq![page[sn]] + page.skip(sn + 1));
                assert(before[i as int] == page[sn]);
                if str_eq(lines[i].id.as_str(), id.as_str()) {
                    lines.remove(i);
                    proof { seen = seen + 1; }
                    assert(without_id(page.take(sn + 1), id@) =~= without_id(page.take(sn), id@));
                    assert(page_view(lines@) =~= before.remove(i as int));
                    assert(page_view(lines@) =~= without_id(page.take(seen), id@) + page.skip(seen));
                } else {
                    i += 1;
                    proof { seen = seen + 1; }
                    assert(without_id(page.take(sn + 1), id@) =~= without_id(page.take(sn), id@).push(page[sn]));
                    assert(page_view(lines@) =~= without_id(page.take(seen), id@) + page.skip(seen));
                }
            }
            assert(seen == page.len());
            assert(page.take(seen) =~= page);
            assert(page_view(lines@) =~= without_id(page, id@));
        },
    }
}

/// Apply `ops` to the LOCAL page model at time `now` — the same
/// transition the server will make. Insert ids are already in the op, so
/// the local model and the server agree on every id without a reload.
pub fn apply_ops_at(lines: &mut Vec<PageLine>, ops: &[EditOp], now: i64)
    ensures
        page_view(final(lines)@) == apply_all(page_view(old(lines)@), ops_view(ops@), now),
{
    let ghost start = page_view(lines@);
    let mut k: usize = 0;
    while k < ops.len()
        invariant
            k <= ops.len(),
            page_view(lines@) == apply_all(start, ops_view(ops@).take(k as int), now),
        decreases ops.len() - k,
    {
        apply_one(lines, &ops[k], now);
        proof {
            lemma_apply_all_push(start, ops_view(ops@).take(k as int), ops@[k as int]@, now);
            assert(ops_view(ops@).take(k + 1) =~= ops_view(ops@).take(k as int).push(ops@[k as int]@));
        }
        k += 1;
    }
    assert(ops_view(ops@).take(ops.len() as int) =~= ops_view(ops@));
}

/// Apply `ops` to the local page model, stamping changed lines with the
/// current time.
pub fn apply_ops(lines: &mut Vec<PageLine>, ops: &[EditOp])
    ensures
        exists|now: i64| page_view(final(lines)@) == apply_all(page_view(old(lines)@), ops_view(ops@), now),
{
    let now = crate::clock::now_secs();
    apply_ops_at(lines, ops, now);
}

// ---------------------------------------------------------------------------
// Undo: inverting operations
// ---------------------------------------------------------------------------

/// An insert of `texts` before `anchor`, as a shape.
pub open spec fn insert_shape(anchor: Seq<char>, texts: Seq<Seq<char>>) -> OpShape {
    OpShape::Insert { anchor, texts: split_on(join_with(texts, seq!['\n']), '\n') }
}

/// Recognize the vertical-move lowering: a contiguous run is deleted and
/// the same texts are inserted elsewhere with fresh ids. Its inverse moves
/// that same run back (the re-inserted lines get fresh ids again).
pub open spec fn spec_invert_move(page: Seq<LineModel>, ops: Seq<OpModel>) -> Option<Seq<OpShape>> {
    if ops.len() == 0 || !(ops.last() is Insert) {
        None
    } else {
        let inserted = ops.last()->Insert_lines;
        let dels = ops.drop_last();
        let n = dels.len();
        if n != inserted.len() || n == 0 || !(forall|k: int| 0 <= k < n ==> (#[trigger] dels[k]) is Delete) {
            None
        } else {
            let ids = Seq::new(n, |k: int| dels[k]->Delete_id);
            match first_index(page, ids[0], 0) {
                None => None,
                Some(start) => if start + n > page.len() {
                    None
                } else if !(forall|k: int| 0 <= k < n ==> (#[trigger] page[start + k]).id == ids[k]
                    && page[start + k].text == inserted[k].1) {
                    None
                } else if exists|k: int, l: int| 0 <= k < n && 0 <= l < page.len()
                    && (#[trigger] page[l]).id == (#[trigger] inserted[k]).0 {
                    None
                } else {
                    Some(
                        Seq::new(n, |k: int| OpShape::Delete { id: inserted[k].0 }) + seq![
                            insert_shape(
                                if start + n < page.len() { page[start + n].id } else { end_anchor() },
                                Seq::new(n, |k: int| page[start + k].text),
                            ),
                        ],
                    )
                },
            }
        }
    }
}

/// What undoes one operation, read against the page it applies to: an
/// insert is undone by deleting what it inserted, a replace by replacing
/// back (same id), a delete by re-inserting the text before the line that
/// followed it.
pub open spec fn inverse_group(cur: Seq<LineModel>, op: OpModel) -> Seq<OpShape> {
    match op {
        OpModel::Insert { anchor, lines } => Seq::new(lines.len(), |k: int| OpShape::Delete { id: lines[k].0 }),
        OpModel::Replace { id, text } => match first_index(cur, id, 0) {
            Some(k) => seq![OpShape::Replace { id, text: cur[k].text }],
            None => Seq::empty(),
        },
        OpModel::Delete { id } => match first_index(cur, id, 0) {
            Some(i) => seq![
                OpShape::Insert {
                    anchor: if i + 1 < cur.len() { cur[i + 1].id } else { end_anchor() },
                    texts: split_on(cur[i].text, '\n'),
                },
            ],
            None => Seq::empty(),
        },
    }
}

/// The inverse groups of `ops` in order, each read against the page as the
/// operations before it left it.
pub open spec fn inverse_groups(cur: Seq<LineModel>, ops: Seq<OpModel>) -> Seq<Seq<OpShape>>
    decreases ops.len(),
{
    if ops.len() == 0 {
        Seq::empty()
    } else {
        seq![inverse_group(cur, ops[0])] + inverse_groups(apply_op(cur, ops[0], 0), ops.drop_first())
    }
}

/// The groups from last to first, flattened.
pub open spec fn flatten_rev<A>(groups: Seq<Seq<A>>) -> Seq<A>
    decreases groups.len(),
{
    if groups.len() == 0 {
        Seq::empty()
    } else {
        groups.last() + flatten_rev(groups.drop_last())
    }
}

/// The ids the operations delete, last deletion first.
pub open spec fn deleted_ids(ops: Seq<OpModel>) -> Seq<Seq<char>>
    decreases ops.len(),
{
    if ops.len() == 0 {
        Seq::empty()
    } else {
        let rest = deleted_ids(ops.drop_last());
        match ops.last() {
            OpModel::Delete { id } => seq![id] + rest,
            _ => rest,
        }
    }
}

/// The first id each re-insertion brings back, in order.
pub open spec fn restored_ids(inv: Seq<OpModel>) -> Seq<Seq<char>>
    decreases inv.len(),
{
    if inv.len() == 0 {
        Seq::empty()
    } else {
        let rest = restored_ids(inv.drop_last());
        match inv.last() {
            OpModel::Insert { lines, .. } => rest.push(lines[0].0),
            _ => rest,
        }
    }
}

pub open spec fn first_pos(s: Seq<Seq<char>>, x: Seq<char>, k: int) -> Option<int>
    decreases s.len() - k,
{
    if k < 0 || k >= s.len() {
        None
    } else if s[k] == x {
        Some(k)
    } else {
        first_pos(s, x, k + 1)
    }
}

/// A target that names a deleted line is renamed to the id its
/// re-insertion brought back.
pub open spec fn rebound(t: Seq<char>, deleted: Seq<Seq<char>>, restored: Seq<Seq<char>>) -> Seq<char> {
    match first_pos(deleted, t, 0) {
        Some(i) => if i < restored.len() { restored[i] } else { t },
        None => t,
    }
}

pub open spec fn rebind_op(op: OpModel, deleted: Seq<Seq<char>>, restored: Seq<Seq<char>>) -> OpModel {
    match op {
        OpModel::Insert { anchor, lines } => OpModel::Insert { anchor: rebound(anchor, deleted, restored), lines },
        OpModel::Replace { id, text } => OpModel::Replace { id: rebound(id, deleted, restored), text },
        OpModel::Delete { id } => OpModel::Delete { id: rebound(id, deleted, restored) },
    }
}

/// Every insert brings at least one line.
pub open spec fn inserts_nonempty(ops: Seq<EditOp>) -> bool {
    forall|k: int| 0 <= k < ops.len() && (#[trigger] ops[k])@ is Insert ==> ops[k]@->Insert_lines.len() > 0
}

fn copy_op(op: &EditOp) -> (r: EditOp)
    ensures
        r@ == op@,
{
    match op {
        EditOp::Insert { anchor, lines } => {
            let mut out: Vec<(String, String)> = Vec::new();
            let mut k: usize = 0;
            while k < lines.len()
                invariant
                    k <= lines.len(),
                    out.len() == k,
                    forall|x: int| 0 <= x < k ==> pair_view(#[trigger] out@[x]) == pair_view(lines@[x]),
                decreases lines.len() - k,
            {
                out.push((copy_str(lines[k].0.as_str()), copy_str(lines[k].1.as_str())));
                k += 1;
            }
            let r = EditOp::Insert { anchor: copy_str(anchor.as_str()), lines: out };
            assert(r@->Insert_lines =~= op@->Insert_lines);
            r
        },
        EditOp::Replace { id, text } => EditOp::Replace { id: copy_str(id.as_str()), text: copy_str(text.as_str()) },
        EditOp::Delete { id } => EditOp::Delete { id: copy_str(id.as_str()) },
    }
}

fn copy_line(l: &PageLine) -> (r: PageLine)
    ensures
        r@ == l@,
{
    PageLine {
        id: copy_str(l.id.as_str()),
        text: copy_str(l.text.as_str()),
        user_id: copy_str(l.user_id.as_str()),
        created: l.created,
        updated: l.updated,
    }
}

#[verifier::loop_isolation(false)]
fn invert_move(lines: &[PageLine], ops: &[EditOp]) -> (r: Option<Vec<EditOp>>)
    ensures
        match r {
            Some(inv) => spec_invert_move(page_view(lines@), ops_view(ops@)) == Some(shapes(inv@))
                && insert_ids_ok(inv@),
            None => spec_invert_move(page_view(lines@), ops_view(ops@)) is None,
        },
{
    let ghost page = page_view(lines@);
    let ghost ov = ops_view(ops@);
    if ops.len() == 0 {
        return None;
    }
    let n = ops.len() - 1;
    let inserted = match &ops[n] {
        EditOp::Insert { lines: ins, .. } => ins,
        _ => { return None; },
    };
    assert(ov.last() == ops@[n as int]@);
    let ghost ins = ov.last()->Insert_lines;
    assert(inserted@.map_values(|p: (String, String)| pair_view(p)) == ins);
    if n != inserted.len() || n == 0 {
        return None;
    }
    let ghost dels = ov.drop_last();
    let mut ids: Vec<&str> = Vec::new();
    let mut k: usize = 0;
    while k < n
        invariant
            k <= n == ops.len() - 1,
            ov == ops_view(ops@),
            dels == ov.drop_last(),
            ids.len() == k,
            forall|x: int| 0 <= x < k ==> (#[trigger] dels[x]) is Delete && ids@[x]@ == dels[x]->Delete_id,
        decreases n - k,
    {
        match &ops[k] {
            EditOp::Delete { id } => {
                ids.push(id.as_str());
            },
            _ => {
                assert(!(dels[k as int] is Delete));
                return None;
            },
        }
        k += 1;
    }
    let ghost idv = Seq::new(n as nat, |x: int| dels[x]->Delete_id);
    let mut start: usize = 0;
    while start < lines.len() && !str_eq(lines[start].id.as_str(), ids[0])
        invariant
            start <= lines.len(),
            page == page_view(lines@),
            n >= 1,
            ids.len() == n,
            ids@[0]@ == idv[0],
            first_index(page, idv[0], 0) == first_index(page, idv[0], start as int),
        decreases lines.len() - start,
    {
        start += 1;
    }
    if start == lines.len() {
        return None;
    }
    assert(first_index(page, idv[0], 0) == Some(start as int));
    let end = match start.checked_add(n) {
        Some(e) => e,
        None => { return None; },
    };
    if end > lines.len() {
        return None;
    }
    let mut k: usize = 0;
    while k < n
        invariant
            k <= n,
            end == start + n <= lines.len(),
            page == page_view(lines@),
            ids.len() == n,
            inserted.len() == n,
            ins == inserted@.map_values(|p: (String, String)| pair_view(p)),
            forall|x: int| 0 <= x < n ==> ids@[x]@ == idv[x],
            forall|x: int| 0 <= x < k ==> (#[trigger] page[start + x]).id == idv[x] && page[start + x].text == ins[x].1,
        decreases n - k,
    {
        if !str_eq(lines[start + k].id.as_str(), ids[k]) || !str_eq(lines[start + k].text.as_str(), inserted[k].1.as_str()) {
            assert(!(page[start + k].id == idv[k as int] && page[start + k].text == ins[k as int].1));
            return None;
        }
        k += 1;
    }
    let mut k: usize = 0;
    while k < n
        invariant
            k <= n,
            page == page_view(lines@),
            inserted.len() == n,
            ins == inserted@.map_values(|p: (String, String)| pair_view(p)),
            forall|x: int, l: int| 0 <= x < k && 0 <= l < page.len() ==> (#[trigger] page[l]).id != (#[trigger] ins[x]).0,
        decreases n - k,
    {
        let mut l: usize = 0;
        while l < lines.len()
            invariant
                k < n,
                l <= lines.len(),
                page == page_view(lines@),
                inserted.len() == n,
                ins == inserted@.map_values(|p: (String, String)| pair_view(p)),
                forall|x: int, ll: int| 0 <= x < k && 0 <= ll < page.len() ==> (#[trigger] page[ll]).id != (#[trigger] ins[x]).0,
                forall|ll: int| 0 <= ll < l ==> (#[trigger] page[ll]).id != ins[k as int].0,
            decreases lines.len() - l,
        {
            if str_eq(lines[l].id.as_str(), inserted[k].0.as_str()) {
                assert(page[l as int].id == ins[k as int].0);
                return None;
            }
            l += 1;
        }
        k += 1;
    }
    let anchor = if end < lines.len() { copy_str(lines[end].id.as_str()) } else { end_anchor_string() };
    let mut inverse: Vec<EditOp> = Vec::new();
    let mut texts: Vec<String> = Vec::new();
    let mut k: usize = 0;
    while k < n
        invariant
            k <= n,
            end == start + n <= lines.len(),
            page == page_view(lines@),
            inserted.len() == n,
            ins == inserted@.map_values(|p: (String, String)| pair_view(p)),
            inverse.len() == k,
            texts.len() == k,
            insert_ids_ok(inverse@),
            shapes(inverse@) == Seq::new(k as nat, |x: int| OpShape::Delete { id: ins[x].0 }),
            forall|x: int| 0 <= x < k ==> (#[trigger] texts@[x])@ == page[start + x].text,
        decreases n - k,
    {
        let ghost before = inverse@;
        inverse.push(EditOp::Delete { id: copy_str(inserted[k].0.as_str()) });
        texts.push(copy_str(lines[start + k].text.as_str()));
        assert(ins[k as int] == pair_view(inserted@[k as int]));
        assert(shapes(inverse@) =~= shapes(before).push(shape(inverse@[k as int]@)));
        k += 1;
        assert(shapes(inverse@) =~= Seq::new(k as nat, |x: int| OpShape::Delete { id: ins[x].0 }));
        assert(insert_ids_ok(inverse@)) by {
            assert forall|kk: int, l: int| 0 <= kk < inverse@.len() && (#[trigger] inverse@[kk])@ is Insert
                && 0 <= l < inverse@[kk]@->Insert_lines.len() implies crate::api::is_line_id(
                    #[trigger] inverse@[kk]@->Insert_lines[l].0) by {
                if kk < before.len() {
                    assert(inverse@[kk] == before[kk]);
                }
            }
        }
    }
    let joined = join_strs(texts.as_slice(), "\n");
    proof {
        reveal_strlit("\n");
        assert("\n"@ =~= seq!['\n']);
        assert(texts.deep_view() =~= Seq::new(n as nat, |x: int| page[start + x].text));
    }
    let op = EditOp::insert(anchor.as_str(), joined.as_str());
    let ghost before = inverse@;
    inverse.push(op);
    assert(op@->Insert_lines.map_values(|l: (Seq<char>, Seq<char>)| l.1) =~= split_on(joined@, '\n'));
    assert(shapes(inverse@) =~= shapes(before).push(shape(op@)));
    assert(insert_ids_ok(inverse@)) by {
        assert forall|kk: int, l: int| 0 <= kk < inverse@.len() && (#[trigger] inverse@[kk])@ is Insert
            && 0 <= l < inverse@[kk]@->Insert_lines.len() implies crate::api::is_line_id(
                #[trigger] inverse@[kk]@->Insert_lines[l].0) by {
            if kk < before.len() {
                assert(inverse@[kk] == before[kk]);
            }
        }
    }
    Some(inverse)
}

proof fn lemma_insert_ids_push(ops: Seq<EditOp>, op: EditOp)
    requires
        insert_ids_ok(ops),
        op@ is Insert ==> forall|l: int| 0 <= l < op@->Insert_lines.len() ==> crate::api::is_line_id(
            #[trigger] op@->Insert_lines[l].0,
        ),
    ensures
        insert_ids_ok(ops.push(op)),
{
    assert forall|kk: int, l: int| 0 <= kk < ops.push(op).len() && (#[trigger] ops.push(op)[kk])@ is Insert
        && 0 <= l < ops.push(op)[kk]@->Insert_lines.len() implies crate::api::is_line_id(
            #[trigger] ops.push(op)[kk]@->Insert_lines[l].0) by {
        if kk < ops.len() {
            assert(ops.push(op)[kk] == ops[kk]);
        }
    }
}

proof fn lemma_nonempty_push(ops: Seq<EditOp>, op: EditOp)
    requires
        inserts_nonempty(ops),
        op@ is Insert ==> op@->Insert_lines.len() > 0,
    ensures
        inserts_nonempty(ops.push(op)),
{
    assert forall|kk: int| 0 <= kk < ops.push(op).len() && (#[trigger] ops.push(op)[kk])@ is Insert
        implies ops.push(op)[kk]@->Insert_lines.len() > 0 by {
        if kk < ops.len() {
            assert(ops.push(op)[kk] == ops[kk]);
        }
    }
}

/// The inverse group of one operation against the current page.
fn invert_one(current: &Vec<PageLine>, op: &EditOp) -> (g: Vec<EditOp>)
    ensures
        shapes(g@) == inverse_group(page_view(current@), op@),
        insert_ids_ok(g@),
        inserts_nonempty(g@),
{
    let ghost cur = page_view(current@);
    let mut g: Vec<EditOp> = Vec::new();
    match op {
        EditOp::Insert { lines, .. } => {
            let mut k: usize = 0;
            while k < lines.len()
                invariant
                    k <= lines.len(),
                    op@->Insert_lines == lines@.map_values(|p: (String, String)| pair_view(p)),
                    insert_ids_ok(g@),
                    inserts_nonempty(g@),
                    shapes(g@) == Seq::new(k as nat, |x: int| OpShape::Delete { id: op@->Insert_lines[x].0 }),
                decreases lines.len() - k,
            {
                let d = EditOp::Delete { id: copy_str(lines[k].0.as_str()) };
                proof {
                    lemma_insert_ids_push(g@, d);
                    lemma_nonempty_push(g@, d);
                }
                let ghost before = g@;
                g.push(d);
                assert(shapes(g@) =~= shapes(before).push(shape(d@)));
                k += 1;
                assert(shapes(g@) =~= Seq::new(k as nat, |x: int| OpShape::Delete { id: op@->Insert_lines[x].0 }));
            }
        },
        EditOp::Replace { id, .. } => {
            if let Some(k) = find_line(current, id.as_str()) {
                let r = EditOp::Replace { id: copy_str(id.as_str()), text: copy_str(current[k].text.as_str()) };
                proof {
                    lemma_insert_ids_push(g@, r);
                    lemma_nonempty_push(g@, r);
                }
                g.push(r);
                assert(shapes(g@) =~= seq![shape(r@)]);
            } else {
                assert(shapes(g@) =~= Seq::<OpShape>::empty());
            }
        },
        EditOp::Delete { id } => {
            if let Some(i) = find_line(current, id.as_str()) {
                let anchor = if i + 1 < current.len() {
                    copy_str(current[i + 1].id.as_str())
                } else {
                    crate::api::end_anchor_string()
                };
                let ins = EditOp::insert(anchor.as_str(), current[i].text.as_str());
                proof {
                    crate::text::lemma_split_on_nonempty(current@[i as int].text@, '\n');
                    lemma_insert_ids_push(g@, ins);
                    lemma_nonempty_push(g@, ins);
                    assert(ins@->Insert_lines.map_values(|l: (Seq<char>, Seq<char>)| l.1)
                        =~= split_on(current@[i as int].text@, '\n'));
                }
                g.push(ins);
                assert(shapes(g@) =~= seq![shape(ins@)]);
            } else {
                assert(shapes(g@) =~= Seq::<OpShape>::empty());
            }
        },
    }
    g
}

proof fn lemma_flatten_rev_take(gs: Seq<Seq<OpShape>>, g: int)
    requires
        0 < g <= gs.len(),
    ensures
        flatten_rev(gs.take(g)) == gs[g - 1] + flatten_rev(gs.take(g - 1)),
{
    assert(gs.take(g).drop_last() =~= gs.take(g - 1));
}

proof fn lemma_deleted_ids_take(ovs: Seq<OpModel>, k: int)
    requires
        0 < k <= ovs.len(),
    ensures
        deleted_ids(ovs.take(k)) == (match ovs[k - 1] {
            OpModel::Delete { id } => seq![id],
            _ => Seq::<Seq<char>>::empty(),
        }) + deleted_ids(ovs.take(k - 1)),
{
    assert(ovs.take(k).drop_last() =~= ovs.take(k - 1));
    assert(ovs.take(k).last() == ovs[k - 1]);
    match ovs[k - 1] {
        OpModel::Delete { id } => {},
        _ => {
            assert(Seq::<Seq<char>>::empty() + deleted_ids(ovs.take(k - 1)) =~= deleted_ids(ovs.take(k - 1)));
        },
    }
}

proof fn lemma_restored_ids_take(inv: Seq<OpModel>, k: int)
    requires
        0 <= k < inv.len(),
    ensures
        restored_ids(inv.take(k + 1)) == (match inv[k] {
            OpModel::Insert { lines, .. } => restored_ids(inv.take(k)).push(lines[0].0),
            _ => restored_ids(inv.take(k)),
        }),
{
    assert(inv.take(k + 1).drop_last() =~= inv.take(k));
    assert(inv.take(k + 1).last() == inv[k]);
}

fn position_of(items: &Vec<String>, x: &str) -> (r: Option<usize>)
    ensures
        match r {
            Some(i) => first_pos(items.deep_view(), x@, 0) == Some(i as int) && i < items.len(),
            None => first_pos(items.deep_view(), x@, 0) is None,
        },
{
    let ghost dv = items.deep_view();
    let mut k: usize = 0;
    while k < items.len()
        invariant
            k <= items.len(),
            dv == items.deep_view(),
            first_pos(dv, x@, 0) == first_pos(dv, x@, k as int),
        decreases items.len() - k,
    {
        if str_eq(items[k].as_str(), x) {
            return Some(k);
        }
        k += 1;
    }
    None
}

fn rebound_target(t: &str, deleted: &Vec<String>, restored: &Vec<String>) -> (r: String)
    ensures
        r@ == rebound(t@, deleted.deep_view(), restored.deep_view()),
{
    match position_of(deleted, t) {
        Some(i) => if i < restored.len() { copy_str(restored[i].as_str()) } else { copy_str(t) },
        None => copy_str(t),
    }
}

fn copy_page(lines: &[PageLine]) -> (current: Vec<PageLine>)
    ensures
        page_view(current@) == page_view(lines@),
{
    let ghost pv = page_view(lines@);
    let mut current: Vec<PageLine> = Vec::new();
    let mut k: usize = 0;
    while k < lines.len()
        invariant
            k <= lines.len(),
            pv == page_view(lines@),
            current.len() == k,
            forall|x: int| 0 <= x < k ==> (#[trigger] current@[x])@ == lines@[x]@,
        decreases lines.len() - k,
    {
        current.push(copy_line(&lines[k]));
        k += 1;
    }
    assert(page_view(current@) =~= pv);
    current
}

pub open spec fn group_shapes(groups: Seq<Vec<EditOp>>) -> Seq<Seq<OpShape>> {
    groups.map_values(|g: Vec<EditOp>| shapes(g@))
}

fn inverse_group_list(lines: &[PageLine], ops: &[EditOp]) -> (groups: Vec<Vec<EditOp>>)
    ensures
        group_shapes(groups@) == inverse_groups(page_view(lines@), ops_view(ops@)),
        forall|x: int| 0 <= x < groups.len() ==> insert_ids_ok((#[trigger] groups@[x])@) && inserts_nonempty(groups@[x]@),
{
    let ghost pv = page_view(lines@);
    let ghost ovs = ops_view(ops@);
    let mut current = copy_page(lines);
    let mut groups: Vec<Vec<EditOp>> = Vec::new();
    let mut k: usize = 0;
    assert(ovs.skip(0) =~= ovs);
    assert(group_shapes(groups@) + inverse_groups(page_view(current@), ovs.skip(0)) =~= inverse_groups(pv, ovs));
    while k < ops.len()
        invariant
            k <= ops.len(),
            pv == page_view(lines@),
            ovs == ops_view(ops@),
            groups.len() == k,
            forall|x: int| 0 <= x < k ==> insert_ids_ok((#[trigger] groups@[x])@) && inserts_nonempty(groups@[x]@),
            group_shapes(groups@) + inverse_groups(page_view(current@), ovs.skip(k as int)) == inverse_groups(pv, ovs),
        decreases ops.len() - k,
    {
        let ghost cur = page_view(current@);
        let ghost gs0 = group_shapes(groups@);
        let g = invert_one(&current, &ops[k]);
        assert(ovs.skip(k as int)[0] == ops@[k as int]@);
        assert(ovs.skip(k as int).drop_first() =~= ovs.skip(k + 1));
        groups.push(g);
        apply_one(&mut current, &ops[k], 0);
        assert(group_shapes(groups@) =~= gs0.push(inverse_group(cur, ovs[k as int])));
        k += 1;
    }
    assert(ovs.skip(ops.len() as int) =~= Seq::<OpModel>::empty());
    assert(group_shapes(groups@) =~= inverse_groups(pv, ovs));
    groups
}

fn flatten_groups(groups: &Vec<Vec<EditOp>>) -> (raw: Vec<EditOp>)
    requires
        forall|x: int| 0 <= x < groups.len() ==> insert_ids_ok((#[trigger] groups@[x])@) && inserts_nonempty(groups@[x]@),
    ensures
        shapes(raw@) == flatten_rev(group_shapes(groups@)),
        insert_ids_ok(raw@),
        inserts_nonempty(raw@),
{
    let ghost gs = group_shapes(groups@);
    let mut raw: Vec<EditOp> = Vec::new();
    let mut g: usize = groups.len();
    assert(gs.take(g as int) =~= gs);
    while g > 0
        invariant
            g <= groups.len(),
            gs == group_shapes(groups@),
            forall|x: int| 0 <= x < groups.len() ==> insert_ids_ok((#[trigger] groups@[x])@) && inserts_nonempty(groups@[x]@),
            insert_ids_ok(raw@),
            inserts_nonempty(raw@),
            shapes(raw@) + flatten_rev(gs.take(g as int)) == flatten_rev(gs),
        decreases g,
    {
        proof { lemma_flatten_rev_take(gs, g as int); }
        let ghost base = shapes(raw@);
        let group = &groups[g - 1];
        assert(insert_ids_ok(group@) && inserts_nonempty(group@));
        let mut x: usize = 0;
        while x < group.len()
            invariant
                x <= group.len(),
                insert_ids_ok(group@),
                inserts_nonempty(group@),
                insert_ids_ok(raw@),
                inserts_nonempty(raw@),
                shapes(raw@) == base + shapes(group@).take(x as int),
            decreases group.len() - x,
        {
            let op = copy_op(&group[x]);
            proof {
                assert(op@ == group@[x as int]@);
                if op@ is Insert {
                    assert forall|l: int| 0 <= l < op@->Insert_lines.len() implies crate::api::is_line_id(
                        #[trigger] op@->Insert_lines[l].0) by {
                        assert(op@->Insert_lines[l] == group@[x as int]@->Insert_lines[l]);
                    }
                }
                lemma_insert_ids_push(raw@, op);
                lemma_nonempty_push(raw@, op);
            }
            let ghost before = shapes(raw@);
            raw.push(op);
            assert(shapes(raw@) =~= before.push(shape(op@)));
            x += 1;
            assert(shapes(raw@) =~= base + shapes(group@).take(x as int));
        }
        assert(shapes(group@).take(group.len() as int) =~= gs[g - 1]);
        g -= 1;
    }
    assert(gs.take(0) =~= Seq::<Seq<OpShape>>::empty());
    assert(shapes(raw@) =~= flatten_rev(gs));
    raw
}

fn deleted_list(ops: &[EditOp]) -> (deleted: Vec<String>)
    ensures
        deleted.deep_view() == deleted_ids(ops_view(ops@)),
{
    let ghost ovs = ops_view(ops@);
    let mut deleted: Vec<String> = Vec::new();
    let mut k: usize = ops.len();
    assert(ovs.take(k as int) =~= ovs);
    assert(deleted.deep_view() + deleted_ids(ovs.take(k as int)) =~= deleted_ids(ovs));
    while k > 0
        invariant
            k <= ops.len(),
            ovs == ops_view(ops@),
            deleted.deep_view() + deleted_ids(ovs.take(k as int)) == deleted_ids(ovs),
        decreases k,
    {
        proof { lemma_deleted_ids_take(ovs, k as int); }
        let ghost before = deleted.deep_view();
        match &ops[k - 1] {
            EditOp::Delete { id } => {
                deleted.push(copy_str(id.as_str()));
                assert(deleted.deep_view() =~= before.push(id@));
                assert(deleted.deep_view() + deleted_ids(ovs.take(k - 1)) =~= before + deleted_ids(ovs.take(k as int)));
            },
            _ => {},
        }
        k -= 1;
    }
    assert(ovs.take(0) =~= Seq::<OpModel>::empty());
    assert(deleted.deep_view() =~= deleted_ids(ovs));
    deleted
}

fn restored_list(raw: &Vec<EditOp>) -> (restored: Vec<String>)
    requires
        inserts_nonempty(raw@),
    ensures
        restored.deep_view() == restored_ids(ops_view(raw@)),
{
    let ghost rv = ops_view(raw@);
    let mut restored: Vec<String> = Vec::new();
    let mut k: usize = 0;
    assert(restored.deep_view() =~= restored_ids(rv.take(0)));
    while k < raw.len()
        invariant
            k <= raw.len(),
            rv == ops_view(raw@),
            inserts_nonempty(raw@),
            restored.deep_view() == restored_ids(rv.take(k as int)),
        decreases raw.len() - k,
    {
        proof { lemma_restored_ids_take(rv, k as int); }
        let ghost before = restored.deep_view();
        match &raw[k] {
            EditOp::Insert { lines: l, .. } => {
                assert(raw@[k as int]@->Insert_lines.len() > 0);
                restored.push(copy_str(l[0].0.as_str()));
                assert(restored.deep_view() =~= before.push(rv[k as int]->Insert_lines[0].0));
            },
            _ => {},
        }
        k += 1;
    }
    assert(rv.take(raw.len() as int) =~= rv);
    restored
}

fn rebind_all(raw: &Vec<EditOp>, deleted: &Vec<String>, restored: &Vec<String>) -> (out: Vec<EditOp>)
    requires
        insert_ids_ok(raw@),
    ensures
        insert_ids_ok(out@),
        ops_view(out@) == ops_view(raw@).map_values(|op: OpModel| rebind_op(op, deleted.deep_view(), restored.deep_view())),
{
    let ghost rv = ops_view(raw@);
    let ghost dd = deleted.deep_view();
    let ghost rr = restored.deep_view();
    let mut out: Vec<EditOp> = Vec::new();
    let mut k: usize = 0;
    while k < raw.len()
        invariant
            k <= raw.len(),
            rv == ops_view(raw@),
            dd == deleted.deep_view(),
            rr == restored.deep_view(),
            insert_ids_ok(raw@),
            insert_ids_ok(out@),
            out.len() == k,
            forall|x: int| 0 <= x < k ==> (#[trigger] out@[x])@ == rebind_op(rv[x], dd, rr),
        decreases raw.len() - k,
    {
        let op = match &raw[k] {
            EditOp::Insert { anchor, lines: l } => {
                let mut copied: Vec<(String, String)> = Vec::new();
                let mut x: usize = 0;
                while x < l.len()
                    invariant
                        x <= l.len(),
                        copied.len() == x,
                        forall|y: int| 0 <= y < x ==> pair_view(#[trigger] copied@[y]) == pair_view(l@[y]),
                    decreases l.len() - x,
                {
                    copied.push((copy_str(l[x].0.as_str()), copy_str(l[x].1.as_str())));
                    x += 1;
                }
                let r = EditOp::Insert { anchor: rebound_target(anchor.as_str(), deleted, restored), lines: copied };
                assert(r@->Insert_lines =~= rv[k as int]->Insert_lines);
                r
            },
            EditOp::Replace { id, text } => EditOp::Replace {
                id: rebound_target(id.as_str(), deleted, restored),
                text: copy_str(text.as_str()),
            },
            EditOp::Delete { id } => EditOp::Delete { id: rebound_target(id.as_str(), deleted, restored) },
        };
        assert(op@ == rebind_op(rv[k as int], dd, rr));
        proof {
            if op@ is Insert {
                assert(raw@[k as int]@ is Insert);
                assert forall|l: int| 0 <= l < op@->Insert_lines.len() implies crate::api::is_line_id(
                    #[trigger] op@->Insert_lines[l].0) by {
                    assert(op@->Insert_lines[l] == raw@[k as int]@->Insert_lines[l]);
                }
            }
            lemma_insert_ids_push(out@, op);
        }
        out.push(op);
        k += 1;
    }
    assert(ops_view(out@) =~= rv.map_values(|op: OpModel| rebind_op(op, dd, rr)));
    out
}

/// The inverse of `ops` against the state `lines` (BEFORE applying), such
/// that applying `ops` and then the inverse gives the text of `lines`
/// back; re-inserted lines get fresh ids.
///
/// Vertical moves are inverted as moves of the same logical source. Other
/// edits reverse the original operations by identity: a replace undoes to
/// a replace on the SAME id, so permalinks survive undo. Redo is the
/// inverse of the inverse.
pub fn invert_ops(lines: &[PageLine], ops: &[EditOp]) -> (inv: Vec<EditOp>)
    ensures
        insert_ids_ok(inv@),
        match spec_invert_move(page_view(lines@), ops_view(ops@)) {
            Some(shp) => shapes(inv@) == shp,
            None => exists|raw: Seq<EditOp>| {
                &&& shapes(raw) == flatten_rev(inverse_groups(page_view(lines@), ops_view(ops@)))
                &&& insert_ids_ok(raw)
                &&& inserts_nonempty(raw)
                &&& ops_view(inv@) == ops_view(raw).map_values(|op: OpModel| rebind_op(
                    op,
                    deleted_ids(ops_view(ops@)),
                    restored_ids(ops_view(raw)),
                ))
            },
        },
        crate::undo::inverts(page_view(lines@), ops_view(ops@), ops_view(inv@)),
{
    if let Some(inverse) = invert_move(lines, ops) {
        assert(op_shapes(ops_view(inverse@)) =~= shapes(inverse@));
        return inverse;
    }
    // Invert identities, not an LCS of text: repeated blank lines must not
    // cause undo to delete a different line with the same contents.
    let groups = inverse_group_list(lines, ops);
    let raw = flatten_groups(&groups);
    // Earlier deletions can anchor to a line restored by a later deletion.
    let deleted = deleted_list(ops);
    let restored = restored_list(&raw);
    let out = rebind_all(&raw, &deleted, &restored);
    assert(ops_view(out@) == ops_view(raw@).map_values(|op: OpModel| rebind_op(
        op,
        deleted_ids(ops_view(ops@)),
        restored_ids(ops_view(raw@)),
    )));
    assert(op_shapes(ops_view(raw@)) =~= shapes(raw@));
    out
}

// ---------------------------------------------------------------------------
// Law: the ops of a diff, applied, give the edited text
// ---------------------------------------------------------------------------

pub open spec fn texts(s: Seq<LineModel>) -> Seq<Seq<char>> {
    s.map_values(|l: LineModel| l.text)
}

pub open spec fn line_pairs(s: Seq<LineModel>) -> Seq<(Seq<char>, Seq<char>)> {
    s.map_values(|l: LineModel| (l.id, l.text))
}

/// No two lines share an id, and none is called `_end`.
pub open spec fn ids_well_formed(s: Seq<LineModel>) -> bool {
    &&& forall|a: int, b: int| 0 <= a < s.len() && 0 <= b < s.len() && a != b ==> (#[trigger] s[a]).id != (#[trigger] s[b]).id
    &&& forall|a: int| 0 <= a < s.len() ==> (#[trigger] s[a]).id != end_anchor()
}

/// No line of `d` shares an id with a line of `s`.
pub open spec fn ids_disjoint(d: Seq<LineModel>, s: Seq<LineModel>) -> bool {
    forall|a: int, b: int| 0 <= a < d.len() && 0 <= b < s.len() ==> (#[trigger] d[a]).id != (#[trigger] s[b]).id
}

/// No text holds a line break.
pub open spec fn single_lines(nv: Seq<Seq<char>>) -> bool {
    forall|k: int, c: int| 0 <= k < nv.len() && 0 <= c < nv[k].len() ==> (#[trigger] nv[k][c]) != '\n'
}

/// Every line an insert brings has an id the page does not use.
pub open spec fn fresh_inserts(ops: Seq<OpModel>, page: Seq<LineModel>) -> bool {
    forall|k: int, l: int, b: int| 0 <= k < ops.len() && ops[k] is Insert
        && 0 <= l < ops[k]->Insert_lines.len() && 0 <= b < page.len()
        ==> (#[trigger] ops[k]->Insert_lines[l]).0 != (#[trigger] page[b]).id
}

pub open spec fn op_shapes(ops: Seq<OpModel>) -> Seq<OpShape> {
    ops.map_values(|op: OpModel| shape(op))
}

pub open spec fn range_from(a: int, b: int) -> Seq<int> {
    Seq::new((b - a) as nat, |k: int| a + k)
}

pub(crate) proof fn lemma_first_index_at(x: Seq<LineModel>, id: Seq<char>, p: int, k: int)
    requires
        0 <= k <= p < x.len(),
        x[p].id == id,
        forall|q: int| 0 <= q < p ==> (#[trigger] x[q]).id != id,
    ensures
        first_index(x, id, k) == Some(p),
    decreases p - k,
{
    if k < p {
        lemma_first_index_at(x, id, p, k + 1);
    }
}

pub(crate) proof fn lemma_without_absent(x: Seq<LineModel>, id: Seq<char>)
    requires
        forall|q: int| 0 <= q < x.len() ==> (#[trigger] x[q]).id != id,
    ensures
        without_id(x, id) == x,
    decreases x.len(),
{
    if x.len() > 0 {
        lemma_without_absent(x.drop_last(), id);
        assert(x.drop_last().push(x.last()) =~= x);
    }
}

pub(crate) proof fn lemma_without_concat(a: Seq<LineModel>, b: Seq<LineModel>, id: Seq<char>)
    ensures
        without_id(a + b, id) == without_id(a, id) + without_id(b, id),
    decreases b.len(),
{
    if b.len() == 0 {
        assert(a + b =~= a);
        assert(without_id(a, id) + without_id(b, id) =~= without_id(a, id));
    } else {
        lemma_without_concat(a, b.drop_last(), id);
        assert((a + b).drop_last() =~= a + b.drop_last());
        assert((a + b).last() == b.last());
        assert(without_id(a, id) + without_id(b.drop_last(), id) + (if b.last().id == id {
            Seq::<LineModel>::empty()
        } else {
            seq![b.last()]
        }) =~= without_id(a, id) + without_id(b, id));
    }
}

pub(crate) proof fn lemma_apply_all_concat(page: Seq<LineModel>, a: Seq<OpModel>, b: Seq<OpModel>, now: i64)
    ensures
        apply_all(page, a + b, now) == apply_all(apply_all(page, a, now), b, now),
    decreases a.len(),
{
    if a.len() == 0 {
        assert(a + b =~= b);
    } else {
        assert((a + b)[0] == a[0]);
        assert((a + b).drop_first() =~= a.drop_first() + b);
        lemma_apply_all_concat(apply_op(page, a[0], now), a.drop_first(), b, now);
    }
}

/// Splitting what was joined with line breaks gives the pieces back, when
/// no piece holds a line break itself.
pub(crate) proof fn lemma_split_join(ts: Seq<Seq<char>>)
    requires
        ts.len() >= 1,
        single_lines(ts),
    ensures
        split_on(join_with(ts, seq!['\n']), '\n') == ts,
    decreases ts.len(),
{
    if ts.len() == 1 {
        lemma_split_plain(ts[0]);
        assert(seq![ts[0]] =~= ts);
    } else {
        let init = ts.drop_last();
        assert forall|k: int, c: int| 0 <= k < init.len() && 0 <= c < init[k].len() implies (#[trigger] init[k][c]) != '\n' by {
            assert(init[k] == ts[k]);
        }
        lemma_split_join(init);
        assert forall|c: int| 0 <= c < ts.last().len() implies ts.last()[c] != '\n' by {
            assert(ts[ts.len() - 1][c] == ts.last()[c]);
        }
        lemma_split_concat(join_with(init, seq!['\n']), ts.last());
        assert(join_with(ts, seq!['\n']) == join_with(init, seq!['\n']) + seq!['\n'] + ts.last());
        assert(init.push(ts.last()) =~= ts);
    }
}

/// A text with no line break splits into itself.
pub(crate) proof fn lemma_split_plain(t: Seq<char>)
    requires
        forall|c: int| 0 <= c < t.len() ==> t[c] != '\n',
    ensures
        split_on(t, '\n') == seq![t],
    decreases t.len(),
{
    if t.len() > 0 {
        lemma_split_plain(t.drop_first());
        assert(seq![t[0]] + t.drop_first() =~= t);
        assert(seq![t.drop_first()].update(0, seq![t[0]] + t.drop_first()) =~= seq![t]);
    } else {
        assert(t =~= Seq::<char>::empty());
    }
}

/// `a`, a line break, then `b` (which has none) splits into the pieces of
/// `a` followed by `b`.
proof fn lemma_split_concat(a: Seq<char>, b: Seq<char>)
    requires
        forall|c: int| 0 <= c < b.len() ==> b[c] != '\n',
    ensures
        split_on(a + seq!['\n'] + b, '\n') == split_on(a, '\n').push(b),
    decreases a.len(),
{
    crate::text::lemma_split_on_nonempty(a, '\n');
    if a.len() == 0 {
        assert(a + seq!['\n'] + b =~= seq!['\n'] + b);
        assert((seq!['\n'] + b).drop_first() =~= b);
        lemma_split_plain(b);
        assert(seq![Seq::<char>::empty()] + seq![b] =~= split_on(a, '\n').push(b));
    } else {
        let whole = a + seq!['\n'] + b;
        assert(whole.drop_first() =~= a.drop_first() + seq!['\n'] + b);
        assert(whole[0] == a[0]);
        lemma_split_concat(a.drop_first(), b);
        crate::text::lemma_split_on_nonempty(a.drop_first(), '\n');
        let r = split_on(a.drop_first(), '\n');
        if a[0] == '\n' {
            assert(seq![Seq::<char>::empty()] + r.push(b) =~= (seq![Seq::<char>::empty()] + r).push(b));
        } else {
            assert(r.push(b).update(0, seq![a[0]] + r.push(b)[0]) =~= r.update(0, seq![a[0]] + r[0]).push(b));
        }
    }
}

/// A line of the page with its text replaced at `now`.
pub open spec fn replaced_line(l: LineModel, text: Seq<char>, now: i64) -> LineModel {
    LineModel { id: l.id, text, user_id: l.user_id, created: l.created, updated: now }
}

pub open spec fn replaced_run(page: Seq<LineModel>, nv: Seq<Seq<char>>, i0: int, j0: int, k: int, now: i64) -> Seq<LineModel> {
    Seq::new(k as nat, |x: int| replaced_line(page[i0 + x], nv[j0 + x], now))
}

proof fn lemma_replaces(
    page: Seq<LineModel>, nv: Seq<Seq<char>>, dd: Seq<LineModel>, i0: int, j0: int, p: int,
    rep: Seq<OpModel>, now: i64, k: int,
)
    requires
        ids_well_formed(page),
        0 <= i0,
        0 <= k <= p,
        i0 + p <= page.len(),
        0 <= j0,
        j0 + p <= nv.len(),
        rep.len() == p,
        forall|x: int| 0 <= x < p ==> (#[trigger] rep[x]) == (OpModel::Replace { id: page[i0 + x].id, text: nv[j0 + x] }),
        ids_disjoint(dd, page.skip(i0)),
    ensures
        apply_all(dd + page.skip(i0), rep.take(k), now) == dd + replaced_run(page, nv, i0, j0, k, now) + page.skip(i0 + k),
    decreases k,
{
    if k == 0 {
        assert(rep.take(0) =~= Seq::<OpModel>::empty());
        assert(dd + page.skip(i0) =~= dd + replaced_run(page, nv, i0, j0, 0, now) + page.skip(i0));
    } else {
        lemma_replaces(page, nv, dd, i0, j0, p, rep, now, k - 1);
        assert(rep.take(k) =~= rep.take(k - 1).push(rep[k - 1]));
        lemma_apply_all_push(dd + page.skip(i0), rep.take(k - 1), rep[k - 1], now);
        let cur = dd + replaced_run(page, nv, i0, j0, k - 1, now) + page.skip(i0 + k - 1);
        let id = page[i0 + k - 1].id;
        let at = dd.len() + k - 1;
        assert(cur[at] == page[i0 + k - 1]);
        assert forall|q: int| 0 <= q < at implies (#[trigger] cur[q]).id != id by {
            if q < dd.len() {
                assert(page.skip(i0)[k - 1] == page[i0 + k - 1]);
            } else {
                assert(cur[q] == replaced_run(page, nv, i0, j0, k - 1, now)[q - dd.len()]);
            }
        }
        lemma_first_index_at(cur, id, at, 0);
        assert(cur.update(at, replaced_line(cur[at], nv[j0 + k - 1], now))
            =~= dd + replaced_run(page, nv, i0, j0, k, now) + page.skip(i0 + k));
    }
}

pub(crate) proof fn lemma_deletes(
    page: Seq<LineModel>, front: Seq<LineModel>, from: int, del: Seq<OpModel>, now: i64, k: int,
)
    requires
        ids_well_formed(page),
        0 <= from,
        0 <= k <= del.len(),
        from + del.len() <= page.len(),
        forall|x: int| 0 <= x < del.len() ==> (#[trigger] del[x]) == (OpModel::Delete { id: page[from + x].id }),
        ids_disjoint(front, page.skip(from)),
    ensures
        apply_all(front + page.skip(from), del.take(k), now) == front + page.skip(from + k),
    decreases k,
{
    if k == 0 {
        assert(del.take(0) =~= Seq::<OpModel>::empty());
    } else {
        lemma_deletes(page, front, from, del, now, k - 1);
        assert(del.take(k) =~= del.take(k - 1).push(del[k - 1]));
        lemma_apply_all_push(front + page.skip(from), del.take(k - 1), del[k - 1], now);
        let id = page[from + k - 1].id;
        let tail = page.skip(from + k);
        lemma_without_concat(front, page.skip(from + k - 1), id);
        assert(page.skip(from + k - 1) =~= seq![page[from + k - 1]] + tail);
        lemma_without_concat(seq![page[from + k - 1]], tail, id);
        assert forall|q: int| 0 <= q < front.len() implies (#[trigger] front[q]).id != id by {
            assert(page.skip(from)[k - 1] == page[from + k - 1]);
        }
        lemma_without_absent(front, id);
        assert forall|q: int| 0 <= q < tail.len() implies (#[trigger] tail[q]).id != id by {
            assert(tail[q] == page[from + k + q]);
        }
        lemma_without_absent(tail, id);
        assert(without_id(seq![page[from + k - 1]], id) =~= Seq::<LineModel>::empty()) by {
            let one = seq![page[from + k - 1]];
            assert(one.drop_last() =~= Seq::<LineModel>::empty());
            assert(one.last() == page[from + k - 1]);
            assert(without_id(Seq::<LineModel>::empty(), id) =~= Seq::<LineModel>::empty());
        }
        assert(without_id(front + page.skip(from + k - 1), id) =~= front + tail);
    }
}

pub open spec fn hunk_anchor(page: Seq<LineModel>, at: int) -> Seq<char> {
    if at < page.len() { page[at].id } else { end_anchor() }
}

/// One changed region, applied: the lines before it (`dd`) are already the
/// new text, and afterwards the new text runs through the region too.
proof fn lemma_apply_hunk(
    page: Seq<LineModel>, nv: Seq<Seq<char>>, dd: Seq<LineModel>, i0: int, d: int, j0: int, e: int,
    hops: Seq<OpModel>, now: i64,
) -> (made: Seq<LineModel>)
    requires
        ids_well_formed(page),
        single_lines(nv),
        0 <= i0,
        0 <= d,
        i0 + d <= page.len(),
        0 <= j0,
        0 <= e,
        j0 + e <= nv.len(),
        d + e > 0,
        ids_disjoint(dd, page.skip(i0)),
        texts(dd) == nv.take(j0),
        op_shapes(hops) == hunk_ops(line_pairs(page), nv, range_from(i0, i0 + d), range_from(j0, j0 + e), hunk_anchor(page, i0 + d)),
        fresh_inserts(hops, page),
    ensures
        apply_all(dd + page.skip(i0), hops, now) == made + page.skip(i0 + d),
        texts(made) == nv.take(j0 + e),
        ids_disjoint(made, page.skip(i0 + d)),
{
    let lp = line_pairs(page);
    let dels = range_from(i0, i0 + d);
    let inss = range_from(j0, j0 + e);
    let p = min_len(d, e);
    let anchor = hunk_anchor(page, i0 + d);
    let rep_s = Seq::new(p as nat, |k: int| OpShape::Replace { id: lp[dels[k]].0, text: nv[inss[k]] });
    let del_s = Seq::new((d - p) as nat, |k: int| OpShape::Delete { id: lp[dels[p + k]].0 });
    let n_ins: int = if e > p { 1 } else { 0 };
    let hk = hunk_ops(lp, nv, dels, inss, anchor);
    assert(op_shapes(hops).len() == hops.len());
    assert(hk.len() == p + (d - p) + n_ins);
    assert(hops.len() == p + (d - p) + n_ins);
    let rep = hops.take(p);
    let del = hops.subrange(p, d);
    let ins = hops.skip(d);
    assert(hops =~= rep + del + ins);
    assert forall|x: int| 0 <= x < p implies (#[trigger] rep[x]) == OpModel::Replace { id: page[i0 + x].id, text: nv[j0 + x] } by {
        assert(shape(hops[x]) == op_shapes(hops)[x]);
        assert(op_shapes(hops)[x] == rep_s[x]);
    }
    assert forall|x: int| 0 <= x < d - p implies (#[trigger] del[x]) == OpModel::Delete { id: page[i0 + p + x].id } by {
        assert(shape(hops[p + x]) == op_shapes(hops)[p + x]);
        assert(op_shapes(hops)[p + x] == del_s[x]);
    }
    // replaces
    lemma_replaces(page, nv, dd, i0, j0, p, rep, now, p);
    assert(rep.take(p) =~= rep);
    let r_run = replaced_run(page, nv, i0, j0, p, now);
    let front = dd + r_run;
    assert(ids_disjoint(front, page.skip(i0 + p))) by {
        assert forall|a: int, b: int| 0 <= a < front.len() && 0 <= b < page.skip(i0 + p).len()
            implies (#[trigger] front[a]).id != (#[trigger] page.skip(i0 + p)[b]).id by {
            assert(page.skip(i0 + p)[b] == page[i0 + p + b]);
            if a < dd.len() {
                assert(page.skip(i0)[p + b] == page[i0 + p + b]);
            } else {
                assert(front[a] == r_run[a - dd.len()]);
            }
        }
    }
    assert(dd + r_run + page.skip(i0 + p) == front + page.skip(i0 + p));
    // deletes
    lemma_deletes(page, front, i0 + p, del, now, d - p);
    assert(del.take(d - p) =~= del);
    lemma_apply_all_concat(dd + page.skip(i0), rep, del, now);
    let after = front + page.skip(i0 + d);
    assert(apply_all(dd + page.skip(i0), rep + del, now) == after);
    lemma_apply_all_concat(dd + page.skip(i0), rep + del, ins, now);
    assert(texts(dd).len() == dd.len());
    assert(dd.len() == j0);
    assert(r_run.len() == p);
    assert(texts(front) =~= nv.take(j0 + p)) by {
        assert forall|x: int| 0 <= x < j0 + p implies texts(front)[x] == nv.take(j0 + p)[x] by {
            if x < dd.len() {
                assert(texts(dd)[x] == nv.take(j0)[x]);
            }
        }
    }
    if e > p {
        let op = ins[0];
        assert(ins =~= seq![op]);
        assert(shape(hops[d]) == op_shapes(hops)[d]);
        let pieces = Seq::new((e - p) as nat, |k: int| nv[inss[p + k]]);
        assert(shape(op) == OpShape::Insert { anchor, texts: split_on(join_with(pieces, seq!['\n']), '\n') });
        assert(single_lines(pieces)) by {
            assert forall|k: int, c: int| 0 <= k < pieces.len() && 0 <= c < pieces[k].len() implies (#[trigger] pieces[k][c]) != '\n' by {
                assert(pieces[k] == nv[j0 + p + k]);
            }
        }
        lemma_split_join(pieces);
        let lines = op->Insert_lines;
        let made_ins = lines.map_values(|l: (Seq<char>, Seq<char>)| created_line(l, now));
        assert(lines.map_values(|l: (Seq<char>, Seq<char>)| l.1) == pieces);
        assert(apply_all(after, ins, now) == apply_op(after, op, now)) by {
            assert(ins[0] == op);
            assert(ins.drop_first() =~= Seq::<OpModel>::empty());
            assert(apply_all(apply_op(after, op, now), Seq::<OpModel>::empty(), now) == apply_op(after, op, now));
        }
        let at = insert_at(after, anchor);
        if i0 + d < page.len() {
            let id = page[i0 + d].id;
            assert(anchor == id);
            assert(id != end_anchor());
            assert(after[front.len() as int] == page[i0 + d]);
            assert forall|q: int| 0 <= q < front.len() implies (#[trigger] after[q]).id != id by {
                assert(after[q] == front[q]);
                assert(page.skip(i0 + p)[d - p] == page[i0 + d]);
            }
            lemma_first_index_at(after, id, front.len() as int, 0);
            assert(at == front.len());
        } else {
            assert(anchor == end_anchor());
            assert(page.skip(i0 + d) =~= Seq::<LineModel>::empty());
            assert(at == after.len());
            assert(after =~= front);
        }
        let made = front + made_ins;
        assert(apply_op(after, op, now) =~= made + page.skip(i0 + d));
        assert(texts(made) =~= nv.take(j0 + e)) by {
            assert forall|x: int| 0 <= x < j0 + e implies texts(made)[x] == nv.take(j0 + e)[x] by {
                if x < front.len() {
                    assert(texts(front)[x] == nv.take(j0 + p)[x]);
                } else {
                    assert(made[x] == made_ins[x - front.len()]);
                    assert(pieces[x - front.len()] == nv[j0 + p + (x - front.len())]);
                }
            }
        }
        assert(ids_disjoint(made, page.skip(i0 + d))) by {
            assert forall|a: int, b: int| 0 <= a < made.len() && 0 <= b < page.skip(i0 + d).len()
                implies (#[trigger] made[a]).id != (#[trigger] page.skip(i0 + d)[b]).id by {
                assert(page.skip(i0 + d)[b] == page[i0 + d + b]);
                if a < front.len() {
                    assert(page.skip(i0 + p)[d - p + b] == page[i0 + d + b]);
                } else {
                    assert(hops[d] == op);
                    assert(made[a].id == lines[a - front.len()].0);
                    assert(lines[a - front.len()].0 != page[i0 + d + b].id);
                }
            }
        }
        made
    } else {
        assert(ins =~= Seq::<OpModel>::empty());
        assert(e == p);
        assert(ids_disjoint(front, page.skip(i0 + d))) by {
            assert forall|a: int, b: int| 0 <= a < front.len() && 0 <= b < page.skip(i0 + d).len()
                implies (#[trigger] front[a]).id != (#[trigger] page.skip(i0 + d)[b]).id by {
                assert(page.skip(i0 + d)[b] == page.skip(i0 + p)[d - p + b]);
            }
        }
        front
    }
}

/// Walking the rest of the script from step `s` with the region opened at
/// old line `i0` / new line `j0`: the operations still to come, applied to
/// a page whose first part `dd` already reads as the new text, give the
/// new text.
proof fn lemma_walk(
    page: Seq<LineModel>, nv: Seq<Seq<char>>, steps: Seq<Step>, s: int, i: int, j: int,
    i0: int, j0: int, dd: Seq<LineModel>, rest: Seq<OpModel>, now: i64,
)
    requires
        ids_well_formed(page),
        single_lines(nv),
        0 <= s <= steps.len(),
        0 <= i0 <= i <= page.len(),
        0 <= j0 <= j <= nv.len(),
        replays(steps.skip(s), texts(page).skip(i), nv.skip(j)),
        ids_disjoint(dd, page.skip(i0)),
        texts(dd) == nv.take(j0),
        op_shapes(rest) == diff_walk(line_pairs(page), nv, steps, s, i, j, range_from(i0, i), range_from(j0, j)),
        fresh_inserts(rest, page),
    ensures
        texts(apply_all(dd + page.skip(i0), rest, now)) == nv,
    decreases steps.len() - s,
{
    let lp = line_pairs(page);
    let open_region = range_from(i0, i).len() > 0 || range_from(j0, j).len() > 0;
    if s == steps.len() {
        assert(steps.skip(s) =~= Seq::<Step>::empty());
        assert(i == page.len());
        assert(j == nv.len());
        if open_region {
            let made = lemma_apply_hunk(page, nv, dd, i0, i - i0, j0, j - j0, rest, now);
            assert(page.skip(i) =~= Seq::<LineModel>::empty());
            assert(made + page.skip(i) =~= made);
            assert(nv.take(j) =~= nv);
        } else {
            assert(rest.len() == 0);
            assert(page.skip(i0) =~= Seq::<LineModel>::empty());
            assert(dd + page.skip(i0) =~= dd);
            assert(nv.take(j0) =~= nv);
        }
    } else {
        let st = steps[s];
        assert(steps.skip(s)[0] == st);
        assert(steps.skip(s).drop_first() =~= steps.skip(s + 1));
        match st {
            Step::Del => {
                assert(texts(page).skip(i).drop_first() =~= texts(page).skip(i + 1));
                assert(range_from(i0, i).push(i) =~= range_from(i0, i + 1));
                lemma_walk(page, nv, steps, s + 1, i + 1, j, i0, j0, dd, rest, now);
            },
            Step::Ins => {
                assert(nv.skip(j).drop_first() =~= nv.skip(j + 1));
                assert(range_from(j0, j).push(j) =~= range_from(j0, j + 1));
                lemma_walk(page, nv, steps, s + 1, i, j + 1, i0, j0, dd, rest, now);
            },
            Step::Match => {
                assert(texts(page).skip(i).drop_first() =~= texts(page).skip(i + 1));
                assert(nv.skip(j).drop_first() =~= nv.skip(j + 1));
                assert(texts(page).skip(i)[0] == nv.skip(j)[0]);
                assert(page[i].text == nv[j]);
                let h = if open_region {
                    hunk_ops(lp, nv, range_from(i0, i), range_from(j0, j), lp[i].0)
                } else {
                    Seq::empty()
                };
                let tail_walk = diff_walk(lp, nv, steps, s + 1, i + 1, j + 1, Seq::empty(), Seq::empty());
                assert(op_shapes(rest) == h + tail_walk);
                let head_ops = rest.take(h.len() as int);
                let tail_ops = rest.skip(h.len() as int);
                assert(rest =~= head_ops + tail_ops);
                assert(op_shapes(rest).len() == rest.len());
                assert(rest.len() == h.len() + tail_walk.len());
                assert forall|x: int| 0 <= x < h.len() implies op_shapes(head_ops)[x] == h[x] by {
                    assert(op_shapes(head_ops)[x] == shape(rest[x]));
                    assert(op_shapes(rest)[x] == (h + tail_walk)[x]);
                }
                assert forall|x: int| 0 <= x < tail_walk.len() implies op_shapes(tail_ops)[x] == tail_walk[x] by {
                    assert(op_shapes(tail_ops)[x] == shape(rest[h.len() + x]));
                    assert(op_shapes(rest)[h.len() + x] == (h + tail_walk)[h.len() + x]);
                }
                assert(op_shapes(head_ops) =~= h);
                assert(op_shapes(tail_ops) =~= tail_walk);
                lemma_apply_all_concat(dd + page.skip(i0), head_ops, tail_ops, now);
                assert(fresh_inserts(head_ops, page)) by {
                    assert forall|k: int, l: int, b: int| 0 <= k < head_ops.len() && head_ops[k] is Insert
                        && 0 <= l < head_ops[k]->Insert_lines.len() && 0 <= b < page.len()
                        implies (#[trigger] head_ops[k]->Insert_lines[l]).0 != (#[trigger] page[b]).id by {
                        assert(head_ops[k] == rest[k]);
                    }
                }
                assert(fresh_inserts(tail_ops, page)) by {
                    assert forall|k: int, l: int, b: int| 0 <= k < tail_ops.len() && tail_ops[k] is Insert
                        && 0 <= l < tail_ops[k]->Insert_lines.len() && 0 <= b < page.len()
                        implies (#[trigger] tail_ops[k]->Insert_lines[l]).0 != (#[trigger] page[b]).id by {
                        assert(tail_ops[k] == rest[h.len() + k]);
                    }
                }
                let made = if open_region {
                    assert(lp[i].0 == hunk_anchor(page, i));
                    lemma_apply_hunk(page, nv, dd, i0, i - i0, j0, j - j0, head_ops, now)
                } else {
                    assert(head_ops =~= Seq::<OpModel>::empty());
                    assert(i0 == i && j0 == j);
                    dd
                };
                assert(apply_all(dd + page.skip(i0), head_ops, now) == made + page.skip(i));
                assert(texts(made) == nv.take(j));
                assert(ids_disjoint(made, page.skip(i)));
                let dd2 = made.push(page[i]);
                assert(page.skip(i) =~= seq![page[i]] + page.skip(i + 1));
                assert(made + page.skip(i) =~= dd2 + page.skip(i + 1));
                assert(texts(made).len() == made.len());
                assert(made.len() == j);
                assert(texts(dd2) =~= nv.take(j + 1)) by {
                    assert forall|x: int| 0 <= x < j implies texts(dd2)[x] == nv.take(j + 1)[x] by {
                        assert(texts(made)[x] == nv.take(j)[x]);
                    }
                }
                assert(ids_disjoint(dd2, page.skip(i + 1))) by {
                    assert forall|a: int, b: int| 0 <= a < dd2.len() && 0 <= b < page.skip(i + 1).len()
                        implies (#[trigger] dd2[a]).id != (#[trigger] page.skip(i + 1)[b]).id by {
                        assert(page.skip(i + 1)[b] == page[i + 1 + b]);
                        if a < made.len() {
                            assert(page.skip(i)[1 + b] == page[i + 1 + b]);
                        }
                    }
                }
                assert(range_from(i + 1, i + 1) =~= Seq::<int>::empty());
                assert(range_from(j + 1, j + 1) =~= Seq::<int>::empty());
                lemma_walk(page, nv, steps, s + 1, i + 1, j + 1, i + 1, j + 1, dd2, tail_ops, now);
            },
        }
    }
}

/// The central promise of the diff: applying the operations it emits to
/// the page gives exactly the edited lines — for a page whose ids are
/// distinct (none of them `_end`), edited lines without line breaks, and
/// inserted lines whose ids the page does not already use.
pub proof fn law_diff_applied_gives_the_edited_text(
    page: Seq<LineModel>,
    nv: Seq<Seq<char>>,
    ops: Seq<OpModel>,
    now: i64,
)
    requires
        ids_well_formed(page),
        single_lines(nv),
        nv.len() > 0,
        op_shapes(ops) == spec_diff(line_pairs(page), nv),
        fresh_inserts(ops, page),
    ensures
        texts(apply_all(page, ops, now)) == nv,
{
    let lp = line_pairs(page);
    assert(texts_of(lp) =~= texts(page));
    let steps = spec_edit_script(texts(page), nv);
    lemma_edit_script_replays(texts(page), nv);
    assert(steps.skip(0) =~= steps);
    assert(texts(page).skip(0) =~= texts(page));
    assert(nv.skip(0) =~= nv);
    assert(range_from(0, 0) =~= Seq::<int>::empty());
    assert(page.skip(0) =~= page);
    let dd = Seq::<LineModel>::empty();
    assert(dd + page.skip(0) =~= page);
    assert(texts(dd) =~= nv.take(0));
    lemma_walk(page, nv, steps, 0, 0, 0, 0, 0, dd, ops, now);
}


/// Some line of `page` carries `id`.
pub open spec fn has_id(page: Seq<LineModel>, id: Seq<char>) -> bool {
    exists|i: int| 0 <= i < page.len() && (#[trigger] page[i]).id == id
}

/// No operation is a delete of `id`.
pub open spec fn never_deletes(ops: Seq<OpModel>, id: Seq<char>) -> bool {
    forall|k: int| 0 <= k < ops.len() && (#[trigger] ops[k]) is Delete ==> ops[k]->Delete_id != id
}

proof fn lemma_first_index_bounds(page: Seq<LineModel>, id: Seq<char>, k: int)
    requires
        0 <= k,
    ensures
        first_index(page, id, k) is Some ==> k <= first_index(page, id, k)->Some_0 < page.len()
            && page[first_index(page, id, k)->Some_0].id == id,
    decreases page.len() - k,
{
    if k < page.len() && page[k].id != id {
        lemma_first_index_bounds(page, id, k + 1);
    }
}

proof fn lemma_without_keeps(page: Seq<LineModel>, gone: Seq<char>, id: Seq<char>)
    requires
        has_id(page, id),
        id != gone,
    ensures
        has_id(without_id(page, gone), id),
    decreases page.len(),
{
    let i = choose|i: int| 0 <= i < page.len() && (#[trigger] page[i]).id == id;
    let w = without_id(page, gone);
    let front = without_id(page.drop_last(), gone);
    if i == page.len() - 1 {
        assert(page.last().id == id);
        assert(w == front + seq![page.last()]);
        assert(w[front.len() as int] == page.last());
    } else {
        assert(page.drop_last()[i] == page[i]);
        lemma_without_keeps(page.drop_last(), gone, id);
        let j = choose|j: int| 0 <= j < front.len() && (#[trigger] front[j]).id == id;
        assert(w[j] == front[j]);
    }
}

proof fn lemma_op_keeps(page: Seq<LineModel>, op: OpModel, now: i64, id: Seq<char>)
    requires
        has_id(page, id),
        !(op is Delete && op->Delete_id == id),
    ensures
        has_id(apply_op(page, op, now), id),
{
    let i = choose|i: int| 0 <= i < page.len() && (#[trigger] page[i]).id == id;
    let out = apply_op(page, op, now);
    match op {
        OpModel::Insert { anchor, lines } => {
            let at = insert_at(page, anchor);
            lemma_first_index_bounds(page, anchor, 0);
            assert(0 <= at <= page.len());
            let made = lines.map_values(|l: (Seq<char>, Seq<char>)| created_line(l, now));
            if i < at {
                assert(out[i] == page[i]);
            } else {
                let j = at + made.len() + (i - at);
                assert(out[j] == page.skip(at)[i - at]);
                assert(out[j] == page[i]);
            }
        },
        OpModel::Replace { id: rid, text } => {
            lemma_first_index_bounds(page, rid, 0);
            match first_index(page, rid, 0) {
                Some(k) => {
                    assert(out[i].id == page[i].id);
                },
                None => {},
            }
        },
        OpModel::Delete { id: gone } => {
            lemma_without_keeps(page, gone, id);
        },
    }
}

/// A line survives every operation but a delete of its own id: inserts,
/// replaces and deletes of other lines keep it on the page.
pub proof fn law_ids_survive_all_but_their_delete(page: Seq<LineModel>, ops: Seq<OpModel>, now: i64, id: Seq<char>)
    requires
        has_id(page, id),
        never_deletes(ops, id),
    ensures
        has_id(apply_all(page, ops, now), id),
    decreases ops.len(),
{
    if ops.len() > 0 {
        assert(ops[0] is Delete ==> ops[0]->Delete_id != id);
        lemma_op_keeps(page, ops[0], now, id);
        assert forall|k: int| 0 <= k < ops.drop_first().len() && (#[trigger] ops.drop_first()[k]) is Delete
            implies ops.drop_first()[k]->Delete_id != id by {
            assert(ops.drop_first()[k] == ops[k + 1]);
        }
        law_ids_survive_all_but_their_delete(apply_op(page, ops[0], now), ops.drop_first(), now, id);
    }
}

/// The diff's other half: applied to the page, its operations give the
/// edited text, and every line of the page that no delete among them names
/// is still there under its own id (kept and one-for-one changed lines
/// keep their ids).
pub proof fn law_diff_keeps_undeleted_ids(
    page: Seq<LineModel>,
    nv: Seq<Seq<char>>,
    ops: Seq<OpModel>,
    now: i64,
    id: Seq<char>,
)
    requires
        ids_well_formed(page),
        single_lines(nv),
        nv.len() > 0,
        op_shapes(ops) == spec_diff(line_pairs(page), nv),
        fresh_inserts(ops, page),
        has_id(page, id),
        never_deletes(ops, id),
    ensures
        texts(apply_all(page, ops, now)) == nv,
        has_id(apply_all(page, ops, now), id),
{
    law_diff_applied_gives_the_edited_text(page, nv, ops, now);
    law_ids_survive_all_but_their_delete(page, ops, now, id);
}

} // verus!
