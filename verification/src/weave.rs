//! Where the review cards and the comment composer go among a page's display
//! rows: each card sits under the last row whose source line lies in its
//! comment's range, and the composer under the last row of the range being
//! commented.
use vstd::prelude::*;

verus! {

/// The row holds source line `s`, and `s` lies in `range`.
pub open spec fn row_in_range(src: Option<usize>, range: (usize, usize)) -> bool {
    match src {
        Some(s) => range.0 <= s && s <= range.1,
        None => false,
    }
}

/// The last of the first `n` rows that lies in `range`, or -1.
pub open spec fn last_in_range(row_srcs: Seq<Option<usize>>, range: (usize, usize), n: int) -> int
    decreases n,
{
    if n <= 0 {
        -1
    } else if row_in_range(row_srcs[n - 1], range) {
        n - 1
    } else {
        last_in_range(row_srcs, range, n - 1)
    }
}

/// The row a card for `range` goes under: the last row whose source line is
/// in the range; failing that the last row (0 when there are none).
pub open spec fn spec_card_anchor(row_srcs: Seq<Option<usize>>, range: (usize, usize)) -> int {
    let j = last_in_range(row_srcs, range, row_srcs.len() as int);
    if j >= 0 {
        j
    } else if row_srcs.len() == 0 {
        0
    } else {
        row_srcs.len() - 1
    }
}

proof fn lemma_last_in_range_bounds(row_srcs: Seq<Option<usize>>, range: (usize, usize), n: int)
    requires
        0 <= n <= row_srcs.len(),
    ensures
        -1 <= last_in_range(row_srcs, range, n) < n,
        last_in_range(row_srcs, range, n) >= 0 ==> row_in_range(row_srcs[last_in_range(row_srcs, range, n)], range),
        forall|j: int|
            last_in_range(row_srcs, range, n) < j < n ==> !row_in_range(#[trigger] row_srcs[j], range),
    decreases n,
{
    if n > 0 {
        lemma_last_in_range_bounds(row_srcs, range, n - 1);
    }
}

/// The anchor row of one range.
pub fn card_anchor(row_srcs: &[Option<usize>], range: (usize, usize)) -> (a: usize)
    ensures
        a == spec_card_anchor(row_srcs@, range),
        row_srcs.len() > 0 ==> a < row_srcs.len(),
{
    let mut anchor: Option<usize> = None;
    let mut idx: usize = 0;
    while idx < row_srcs.len()
        invariant
            idx <= row_srcs.len(),
            match anchor {
                Some(j) => j as int == last_in_range(row_srcs@, range, idx as int) && j < idx,
                None => last_in_range(row_srcs@, range, idx as int) == -1,
            },
        decreases row_srcs.len() - idx,
    {
        let hit = match row_srcs[idx] {
            Some(s) => range.0 <= s && s <= range.1,
            None => false,
        };
        if hit {
            anchor = Some(idx);
        }
        idx += 1;
    }
    proof {
        lemma_last_in_range_bounds(row_srcs@, range, row_srcs@.len() as int);
    }
    match anchor {
        Some(j) => j,
        None => if row_srcs.len() == 0 {
            0
        } else {
            row_srcs.len() - 1
        },
    }
}

/// The anchor row of each comment range, in order.
pub fn card_anchors(row_srcs: &[Option<usize>], ranges: &[(usize, usize)]) -> (a: Vec<usize>)
    ensures
        a.len() == ranges.len(),
        forall|i: int| 0 <= i < a.len() ==> a[i] == spec_card_anchor(row_srcs@, #[trigger] ranges@[i]),
{
    let mut a: Vec<usize> = Vec::new();
    let mut i: usize = 0;
    while i < ranges.len()
        invariant
            i <= ranges.len(),
            a.len() == i,
            forall|k: int| 0 <= k < i ==> a[k] == spec_card_anchor(row_srcs@, #[trigger] ranges@[k]),
        decreases ranges.len() - i,
    {
        let x = card_anchor(row_srcs, ranges[i]);
        a.push(x);
        i += 1;
    }
    a
}

/// One slot of the woven page: a content row, a comment's card, or the
/// composer.
#[derive(Debug, Clone, Copy, PartialEq, Eq, Structural)]
pub enum Slot {
    Row(usize),
    Card(usize),
    Composer,
}

/// The cards of comments `0..m` that go under row `idx`, in comment order:
/// those shown and anchored there, except the one the composer is editing.
pub open spec fn cards_at(
    anchors: Seq<usize>,
    shown: Seq<bool>,
    hidden: Option<usize>,
    idx: int,
    m: int,
) -> Seq<Slot>
    decreases m,
{
    if m <= 0 {
        Seq::empty()
    } else {
        let before = cards_at(anchors, shown, hidden, idx, m - 1);
        let c = (m - 1) as usize;
        if shown[m - 1] && anchors[m - 1] == idx && hidden != Some(c) {
            before.push(Slot::Card(c))
        } else {
            before
        }
    }
}

/// The first `n` rows with their cards and, under its anchor, the composer.
pub open spec fn spec_weave(
    n: int,
    anchors: Seq<usize>,
    shown: Seq<bool>,
    hidden: Option<usize>,
    composer: Option<usize>,
) -> Seq<Slot>
    decreases n,
{
    if n <= 0 {
        Seq::empty()
    } else {
        let k = n - 1;
        spec_weave(k, anchors, shown, hidden, composer).push(Slot::Row(k as usize)) + cards_at(
            anchors,
            shown,
            hidden,
            k,
            anchors.len() as int,
        ) + (if composer == Some(k as usize) {
            seq![Slot::Composer]
        } else {
            Seq::empty()
        })
    }
}

/// Row `idx`'s cards, in comment order.
fn push_cards(
    out: &mut Vec<Slot>,
    anchors: &[usize],
    shown: &[bool],
    hidden: Option<usize>,
    idx: usize,
)
    requires
        anchors.len() == shown.len(),
    ensures
        final(out)@ == old(out)@ + cards_at(anchors@, shown@, hidden, idx as int, anchors.len() as int),
{
    let ghost start = out@;
    let mut c: usize = 0;
    assert(out@ =~= start + cards_at(anchors@, shown@, hidden, idx as int, 0));
    while c < anchors.len()
        invariant
            c <= anchors.len(),
            anchors.len() == shown.len(),
            out@ == start + cards_at(anchors@, shown@, hidden, idx as int, c as int),
        decreases anchors.len() - c,
    {
        if shown[c] && anchors[c] == idx && hidden != Some(c) {
            out.push(Slot::Card(c));
            assert(out@ =~= start + cards_at(anchors@, shown@, hidden, idx as int, c + 1));
        } else {
            assert(out@ =~= start + cards_at(anchors@, shown@, hidden, idx as int, c + 1));
        }
        c += 1;
    }
}

/// The page's `n` content rows with each shown comment's card woven in under
/// its anchor row (in comment order), the card of the comment being edited
/// left out, and the composer under its own anchor after that row's cards.
pub fn weave(
    n: usize,
    anchors: &[usize],
    shown: &[bool],
    hidden: Option<usize>,
    composer: Option<usize>,
) -> (out: Vec<Slot>)
    requires
        anchors.len() == shown.len(),
    ensures
        out@ == spec_weave(n as int, anchors@, shown@, hidden, composer),
{
    let mut out: Vec<Slot> = Vec::new();
    let mut idx: usize = 0;
    while idx < n
        invariant
            idx <= n,
            anchors.len() == shown.len(),
            out@ == spec_weave(idx as int, anchors@, shown@, hidden, composer),
        decreases n - idx,
    {
        let ghost before = out@;
        out.push(Slot::Row(idx));
        push_cards(&mut out, anchors, shown, hidden, idx);
        if composer == Some(idx) {
            out.push(Slot::Composer);
            assert(out@ =~= spec_weave(idx + 1, anchors@, shown@, hidden, composer));
        } else {
            assert(out@ =~= spec_weave(idx + 1, anchors@, shown@, hidden, composer));
        }
        idx += 1;
    }
    out
}

/// The content rows among `s`, in order.
pub open spec fn rows_only(s: Seq<Slot>) -> Seq<usize>
    decreases s.len(),
{
    if s.len() == 0 {
        Seq::empty()
    } else {
        match s.last() {
            Slot::Row(i) => rows_only(s.drop_last()).push(i),
            _ => rows_only(s.drop_last()),
        }
    }
}

proof fn lemma_rows_only_add(a: Seq<Slot>, b: Seq<Slot>)
    ensures
        rows_only(a + b) == rows_only(a) + rows_only(b),
    decreases b.len(),
{
    if b.len() == 0 {
        assert(a + b =~= a);
        assert(rows_only(a) + rows_only(b) =~= rows_only(a));
    } else {
        lemma_rows_only_add(a, b.drop_last());
        assert((a + b).drop_last() =~= a + b.drop_last());
        assert((a + b).last() == b.last());
        match b.last() {
            Slot::Row(i) => {
                assert(rows_only(a) + rows_only(b.drop_last()).push(i) =~= (rows_only(a) + rows_only(
                    b.drop_last(),
                )).push(i));
            },
            _ => {},
        }
    }
}

proof fn lemma_cards_have_no_rows(anchors: Seq<usize>, shown: Seq<bool>, hidden: Option<usize>, idx: int, m: int)
    ensures
        rows_only(cards_at(anchors, shown, hidden, idx, m)) == Seq::<usize>::empty(),
    decreases m,
{
    if m > 0 {
        lemma_cards_have_no_rows(anchors, shown, hidden, idx, m - 1);
        let before = cards_at(anchors, shown, hidden, idx, m - 1);
        let c = (m - 1) as usize;
        if shown[m - 1] && anchors[m - 1] == idx && hidden != Some(c) {
            assert(before.push(Slot::Card(c)).drop_last() =~= before);
        }
    }
}

/// Every content row appears in the woven page exactly once, in order:
/// cards and the composer only ever go between rows.
pub proof fn law_weave_keeps_every_row_once(
    n: int,
    anchors: Seq<usize>,
    shown: Seq<bool>,
    hidden: Option<usize>,
    composer: Option<usize>,
)
    requires
        0 <= n,
    ensures
        rows_only(spec_weave(n, anchors, shown, hidden, composer)) == Seq::new(n as nat, |i: int| i as usize),
    decreases n,
{
    if n == 0 {
        assert(rows_only(spec_weave(n, anchors, shown, hidden, composer)) =~= Seq::new(
            n as nat,
            |i: int| i as usize,
        ));
    } else {
        law_weave_keeps_every_row_once(n - 1, anchors, shown, hidden, composer);
        let k = n - 1;
        let prev = spec_weave(k, anchors, shown, hidden, composer);
        let cards = cards_at(anchors, shown, hidden, k, anchors.len() as int);
        let tail = if composer == Some(k as usize) {
            seq![Slot::Composer]
        } else {
            Seq::empty()
        };
        lemma_cards_have_no_rows(anchors, shown, hidden, k, anchors.len() as int);
        lemma_rows_only_add(prev.push(Slot::Row(k as usize)), cards);
        lemma_rows_only_add(prev.push(Slot::Row(k as usize)) + cards, tail);
        assert(prev.push(Slot::Row(k as usize)).drop_last() =~= prev);
        if composer == Some(k as usize) {
            assert(tail.drop_last() =~= Seq::<Slot>::empty());
            assert(tail.last() == Slot::Composer);
            assert(rows_only(tail) == rows_only(Seq::<Slot>::empty()));
        }
        assert(rows_only(tail) =~= Seq::<usize>::empty());
        assert(Seq::new(n as nat, |i: int| i as usize) =~= Seq::new(k as nat, |i: int| i as usize).push(
            k as usize,
        ));
        assert(rows_only(spec_weave(n, anchors, shown, hidden, composer)) =~= rows_only(prev).push(k as usize));
    }
}


proof fn lemma_cards_at_contains(anchors: Seq<usize>, shown: Seq<bool>, hidden: Option<usize>, idx: int, m: int, c: int)
    requires
        0 <= m <= anchors.len(),
        anchors.len() == shown.len(),
        0 <= c < anchors.len(),
        anchors.len() <= usize::MAX,
    ensures
        cards_at(anchors, shown, hidden, idx, m).contains(Slot::Card(c as usize)) <==> (c < m && shown[c]
            && anchors[c] == idx && hidden != Some(c as usize)),
    decreases m,
{
    if m > 0 {
        lemma_cards_at_contains(anchors, shown, hidden, idx, m - 1, c);
        let before = cards_at(anchors, shown, hidden, idx, m - 1);
        let cm = (m - 1) as usize;
        if shown[m - 1] && anchors[m - 1] == idx && hidden != Some(cm) {
            let after = before.push(Slot::Card(cm));
            assert(after[before.len() as int] == Slot::Card(cm));
            if before.contains(Slot::Card(c as usize)) {
                let q = choose|q: int| 0 <= q < before.len() && before[q] == Slot::Card(c as usize);
                assert(after[q] == before[q]);
            }
            if after.contains(Slot::Card(c as usize)) && c != m - 1 {
                let q = choose|q: int| 0 <= q < after.len() && after[q] == Slot::Card(c as usize);
                if q == before.len() {
                    assert(after[q] == Slot::Card(cm));
                    assert(c as usize == cm);
                    assert(c == m - 1);
                }
                assert(q < before.len());
                assert(before[q] == after[q]);
            }
        }
    }
}

proof fn lemma_weave_contains_card(
    n: int, anchors: Seq<usize>, shown: Seq<bool>, hidden: Option<usize>, composer: Option<usize>, c: int,
)
    requires
        0 <= n,
        anchors.len() == shown.len(),
        0 <= c < anchors.len(),
        anchors.len() <= usize::MAX,
    ensures
        spec_weave(n, anchors, shown, hidden, composer).contains(Slot::Card(c as usize)) <==> (shown[c]
            && hidden != Some(c as usize) && anchors[c] < n),
    decreases n,
{
    if n > 0 {
        let k = n - 1;
        lemma_weave_contains_card(k, anchors, shown, hidden, composer, c);
        lemma_cards_at_contains(anchors, shown, hidden, k, anchors.len() as int, c);
        let prev = spec_weave(k, anchors, shown, hidden, composer);
        let a = prev.push(Slot::Row(k as usize));
        let cards = cards_at(anchors, shown, hidden, k, anchors.len() as int);
        let tail = if composer == Some(k as usize) {
            seq![Slot::Composer]
        } else {
            Seq::empty()
        };
        let w = a + cards + tail;
        assert(w == spec_weave(n, anchors, shown, hidden, composer));
        let x = Slot::Card(c as usize);
        if w.contains(x) {
            let q = choose|q: int| 0 <= q < w.len() && w[q] == x;
            if q < prev.len() {
                assert(prev[q] == w[q]);
            } else if q == prev.len() {
                assert(w[q] == Slot::Row(k as usize));
            } else if q < a.len() + cards.len() {
                assert(cards[q - a.len()] == w[q]);
            } else {
                assert(tail[q - a.len() - cards.len()] == w[q]);
            }
        }
        if prev.contains(x) {
            let q = choose|q: int| 0 <= q < prev.len() && prev[q] == x;
            assert(w[q] == prev[q]);
        }
        if cards.contains(x) {
            let q = choose|q: int| 0 <= q < cards.len() && cards[q] == x;
            assert(w[a.len() + q] == cards[q]);
        }
    }
}

/// Every comment shown on the page, but for the one the composer is
/// editing, gets its card exactly when its anchor is one of the rows; no
/// other card appears.
pub proof fn law_each_shown_card_is_woven(
    n: int, anchors: Seq<usize>, shown: Seq<bool>, hidden: Option<usize>, composer: Option<usize>, c: int,
)
    requires
        0 <= n,
        anchors.len() == shown.len(),
        0 <= c < anchors.len(),
        anchors.len() <= usize::MAX,
    ensures
        spec_weave(n, anchors, shown, hidden, composer).contains(Slot::Card(c as usize)) <==> (shown[c]
            && hidden != Some(c as usize) && anchors[c] < n),
{
    lemma_weave_contains_card(n, anchors, shown, hidden, composer, c);
}

} // verus!
