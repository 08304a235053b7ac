//! Why undo works: applying a batch of operations and then its inverse
//! gives the page's text back.
use vstd::prelude::*;
use crate::api::{LineModel, OpModel, end_anchor};
use crate::editops::{
    OpShape, apply_all, apply_op, created_line, deleted_ids, first_index, first_pos, flatten_rev,
    ids_well_formed, insert_at, insert_shape, inverse_group, inverse_groups, op_shapes, rebind_op,
    rebound, restored_ids, shape, spec_invert_move, texts, without_id, lemma_apply_all_concat,
    lemma_deletes, lemma_first_index_at, lemma_split_join, lemma_split_plain,
    lemma_without_absent, lemma_without_concat, single_lines, has_id, never_deletes,
    law_ids_survive_all_but_their_delete,
};
use crate::text::split_on;

verus! {

// ---------------------------------------------------------------------------
// What the law speaks of
// ---------------------------------------------------------------------------

/// The ids of the page's lines, top to bottom.
pub open spec fn page_ids(page: Seq<LineModel>) -> Seq<Seq<char>> {
    page.map_values(|l: LineModel| l.id)
}

/// The ids an operation brings onto the page.
pub open spec fn inserted_ids(op: OpModel) -> Seq<Seq<char>> {
    match op {
        OpModel::Insert { lines, .. } => lines.map_values(|l: (Seq<char>, Seq<char>)| l.0),
        _ => Seq::empty(),
    }
}

/// Every id the operations bring onto the page, in order.
pub open spec fn all_inserted(ops: Seq<OpModel>) -> Seq<Seq<char>>
    decreases ops.len(),
{
    if ops.len() == 0 {
        Seq::empty()
    } else {
        inserted_ids(ops[0]) + all_inserted(ops.drop_first())
    }
}

/// New ids: no two alike, none `_end`, none already on the page.
pub open spec fn fresh_ids(ids: Seq<Seq<char>>, page: Seq<LineModel>) -> bool {
    &&& forall|a: int, b: int| 0 <= a < ids.len() && 0 <= b < ids.len() && a != b ==> (#[trigger] ids[a]) != (#[trigger] ids[b])
    &&& forall|a: int| 0 <= a < ids.len() ==> (#[trigger] ids[a]) != end_anchor() && !page_ids(page).contains(ids[a])
}

/// No line of the page holds a line break.
pub open spec fn page_single_lines(page: Seq<LineModel>) -> bool {
    forall|k: int, c: int| 0 <= k < page.len() && 0 <= c < page[k].text.len() ==> (#[trigger] page[k].text[c]) != '\n'
}

/// No text an operation writes holds a line break.
pub open spec fn op_single_lines(op: OpModel) -> bool {
    match op {
        OpModel::Insert { lines, .. } => forall|l: int, c: int| 0 <= l < lines.len() && 0 <= c < lines[l].1.len()
            ==> (#[trigger] lines[l].1[c]) != '\n',
        OpModel::Replace { text, .. } => forall|c: int| 0 <= c < text.len() ==> (#[trigger] text[c]) != '\n',
        OpModel::Delete { .. } => true,
    }
}

pub open spec fn ops_single_lines(ops: Seq<OpModel>) -> bool {
    forall|k: int| 0 <= k < ops.len() ==> op_single_lines(#[trigger] ops[k])
}

/// Every delete names a line that is on the page when it runs.
pub open spec fn deletes_hit(cur: Seq<LineModel>, ops: Seq<OpModel>) -> bool
    decreases ops.len(),
{
    if ops.len() == 0 {
        true
    } else {
        &&& (ops[0] is Delete ==> first_index(cur, ops[0]->Delete_id, 0) is Some)
        &&& deletes_hit(apply_op(cur, ops[0], 0), ops.drop_first())
    }
}

/// `inv` is what inverting `ops` against `page` yields: the move back for
/// a vertical move, otherwise the inverse groups from last to first, with
/// targets that name a deleted line renamed to the id of its re-insertion.
pub open spec fn inverts(page: Seq<LineModel>, ops: Seq<OpModel>, inv: Seq<OpModel>) -> bool {
    match spec_invert_move(page, ops) {
        Some(shp) => op_shapes(inv) == shp,
        None => exists|raw: Seq<OpModel>| {
            &&& op_shapes(raw) == flatten_rev(inverse_groups(page, ops))
            &&& inv == raw.map_values(|op: OpModel| rebind_op(op, deleted_ids(ops), restored_ids(raw)))
        },
    }
}

/// Two pages with the same ids and texts, line for line.
pub open spec fn same_lines(a: Seq<LineModel>, b: Seq<LineModel>) -> bool {
    &&& a.len() == b.len()
    &&& forall|i: int| 0 <= i < a.len() ==> (#[trigger] a[i]).id == b[i].id && a[i].text == b[i].text
}

// ---------------------------------------------------------------------------
// The transitions read ids and texts only
// ---------------------------------------------------------------------------

proof fn lemma_first_index_same(a: Seq<LineModel>, b: Seq<LineModel>, id: Seq<char>, k: int)
    requires
        same_lines(a, b),
    ensures
        first_index(a, id, k) == first_index(b, id, k),
    decreases a.len() - k,
{
    if 0 <= k < a.len() {
        assert(a[k].id == b[k].id);
        lemma_first_index_same(a, b, id, k + 1);
    }
}

proof fn lemma_without_same(a: Seq<LineModel>, b: Seq<LineModel>, id: Seq<char>)
    requires
        same_lines(a, b),
    ensures
        same_lines(without_id(a, id), without_id(b, id)),
    decreases a.len(),
{
    if a.len() > 0 {
        let a0 = a.drop_last();
        let b0 = b.drop_last();
        assert(same_lines(a0, b0)) by {
            assert forall|i: int| 0 <= i < a0.len() implies (#[trigger] a0[i]).id == b0[i].id && a0[i].text == b0[i].text by {
                assert(a[i].id == b[i].id);
            }
        }
        lemma_without_same(a0, b0, id);
        assert(a.last().id == b.last().id && a.last().text == b.last().text) by {
            assert(a[a.len() - 1].id == b[a.len() - 1].id);
        }
        let wa = without_id(a0, id);
        let wb = without_id(b0, id);
        let ta: Seq<LineModel> = if a.last().id == id { Seq::empty() } else { seq![a.last()] };
        let tb: Seq<LineModel> = if b.last().id == id { Seq::empty() } else { seq![b.last()] };
        assert(without_id(a, id) == wa + ta);
        assert(without_id(b, id) == wb + tb);
        assert forall|i: int| 0 <= i < (wa + ta).len() implies (#[trigger] (wa + ta)[i]).id == (wb + tb)[i].id
            && (wa + ta)[i].text == (wb + tb)[i].text by {
            if i < wa.len() {
                assert(wa[i].id == wb[i].id);
            }
        }
    }
}

pub open spec fn created_lines(lines: Seq<(Seq<char>, Seq<char>)>, now: i64) -> Seq<LineModel> {
    lines.map_values(|l: (Seq<char>, Seq<char>)| created_line(l, now))
}

proof fn lemma_apply_op_same(a: Seq<LineModel>, b: Seq<LineModel>, op: OpModel, n1: i64, n2: i64)
    requires
        same_lines(a, b),
    ensures
        same_lines(apply_op(a, op, n1), apply_op(b, op, n2)),
{
    match op {
        OpModel::Insert { anchor, lines } => {
            lemma_first_index_same(a, b, anchor, 0);
            lemma_first_index_bounds(a, anchor, 0);
            let at = insert_at(a, anchor);
            assert(0 <= at <= a.len());
            assert(insert_at(b, anchor) == at);
            let ra = a.take(at) + created_lines(lines, n1) + a.skip(at);
            let rb = b.take(at) + created_lines(lines, n2) + b.skip(at);
            assert(apply_op(a, op, n1) == ra);
            assert(apply_op(b, op, n2) == rb);
            assert forall|i: int| 0 <= i < ra.len() implies (#[trigger] ra[i]).id == rb[i].id && ra[i].text == rb[i].text by {
                if i < at {
                    assert(a[i].id == b[i].id);
                } else if i < at + lines.len() {
                } else {
                    assert(a[i - lines.len()].id == b[i - lines.len()].id);
                }
            }
        },
        OpModel::Replace { id, text } => {
            lemma_first_index_same(a, b, id, 0);
            match first_index(a, id, 0) {
                Some(k) => {
                    lemma_first_index_bounds(a, id, 0);
                    let ra = apply_op(a, op, n1);
                    let rb = apply_op(b, op, n2);
                    assert forall|i: int| 0 <= i < ra.len() implies (#[trigger] ra[i]).id == rb[i].id && ra[i].text == rb[i].text by {
                        assert(a[i].id == b[i].id);
                    }
                },
                None => {},
            }
        },
        OpModel::Delete { id } => {
            lemma_without_same(a, b, id);
        },
    }
}

proof fn lemma_apply_all_same(a: Seq<LineModel>, b: Seq<LineModel>, ops: Seq<OpModel>, n1: i64, n2: i64)
    requires
        same_lines(a, b),
    ensures
        same_lines(apply_all(a, ops, n1), apply_all(b, ops, n2)),
    decreases ops.len(),
{
    if ops.len() > 0 {
        lemma_apply_op_same(a, b, ops[0], n1, n2);
        lemma_apply_all_same(apply_op(a, ops[0], n1), apply_op(b, ops[0], n2), ops.drop_first(), n1, n2);
    }
}

// ---------------------------------------------------------------------------
// Looking lines up by id
// ---------------------------------------------------------------------------

proof fn lemma_first_index_bounds(page: Seq<LineModel>, id: Seq<char>, k: int)
    requires
        0 <= k,
    ensures
        match first_index(page, id, k) {
            Some(i) => k <= i < page.len() && page[i].id == id
                && forall|q: int| k <= q < i ==> (#[trigger] page[q]).id != id,
            None => forall|q: int| k <= q < page.len() ==> (#[trigger] page[q]).id != id,
        },
    decreases page.len() - k,
{
    if k < page.len() && page[k].id != id {
        lemma_first_index_bounds(page, id, k + 1);
    }
}

/// On a page whose ids are distinct, the line with a given id is found.
proof fn lemma_first_index_unique(page: Seq<LineModel>, p: int)
    requires
        0 <= p < page.len(),
        forall|a: int, b: int| 0 <= a < page.len() && 0 <= b < page.len() && a != b ==> (#[trigger] page[a]).id != (#[trigger] page[b]).id,
    ensures
        first_index(page, page[p].id, 0) == Some(p),
{
    assert forall|q: int| 0 <= q < p implies (#[trigger] page[q]).id != page[p].id by {
        assert(page[q].id != page[p].id);
    }
    lemma_first_index_at(page, page[p].id, p, 0);
}

/// Removing the one line with an id.
proof fn lemma_without_unique(page: Seq<LineModel>, p: int)
    requires
        0 <= p < page.len(),
        forall|a: int, b: int| 0 <= a < page.len() && 0 <= b < page.len() && a != b ==> (#[trigger] page[a]).id != (#[trigger] page[b]).id,
    ensures
        without_id(page, page[p].id) == page.remove(p),
{
    let id = page[p].id;
    let front = page.take(p);
    let back = page.skip(p + 1);
    assert(page =~= front + (seq![page[p]] + back));
    lemma_without_concat(front, seq![page[p]] + back, id);
    lemma_without_concat(seq![page[p]], back, id);
    assert forall|q: int| 0 <= q < front.len() implies (#[trigger] front[q]).id != id by {
        assert(page[q].id != page[p].id);
    }
    lemma_without_absent(front, id);
    assert forall|q: int| 0 <= q < back.len() implies (#[trigger] back[q]).id != id by {
        assert(back[q] == page[p + 1 + q]);
        assert(page[p + 1 + q].id != page[p].id);
    }
    lemma_without_absent(back, id);
    let one = seq![page[p]];
    assert(one.drop_last() =~= Seq::<LineModel>::empty());
    assert(one.last() == page[p]);
    assert(without_id(Seq::<LineModel>::empty(), id) =~= Seq::<LineModel>::empty());
    assert(without_id(one, id) =~= Seq::<LineModel>::empty());
    assert(front + back =~= page.remove(p));
}

// ---------------------------------------------------------------------------
// One operation undone
// ---------------------------------------------------------------------------

/// `y` is `x` with every id renamed by the rebinding, texts kept.
pub open spec fn renamed(y: Seq<LineModel>, x: Seq<LineModel>, dl: Seq<Seq<char>>, rl: Seq<Seq<char>>) -> bool {
    &&& y.len() == x.len()
    &&& forall|i: int| 0 <= i < y.len() ==> (#[trigger] y[i]).id == rebound(x[i].id, dl, rl) && y[i].text == x[i].text
}

pub open spec fn rebind_all(raw: Seq<OpModel>, dl: Seq<Seq<char>>, rl: Seq<Seq<char>>) -> Seq<OpModel> {
    raw.map_values(|op: OpModel| rebind_op(op, dl, rl))
}

/// The ids one operation deals with: the page's, those it inserts, `_end`.
pub open spec fn in_play_one(cur: Seq<LineModel>, op: OpModel, t: Seq<char>) -> bool {
    page_ids(cur).contains(t) || inserted_ids(op).contains(t) || t == end_anchor()
}

/// The rebinding keeps apart the ids one operation deals with, and leaves
/// `_end` alone.
pub open spec fn keeps_apart_one(cur: Seq<LineModel>, op: OpModel, dl: Seq<Seq<char>>, rl: Seq<Seq<char>>) -> bool {
    &&& rebound(end_anchor(), dl, rl) == end_anchor()
    &&& forall|s: Seq<char>, t: Seq<char>| #[trigger] in_play_one(cur, op, s) && #[trigger] in_play_one(cur, op, t) && s != t
        ==> rebound(s, dl, rl) != rebound(t, dl, rl)
}

proof fn lemma_in_page(cur: Seq<LineModel>, q: int)
    requires
        0 <= q < cur.len(),
    ensures
        page_ids(cur).contains(cur[q].id),
{
    assert(page_ids(cur)[q] == cur[q].id);
}

proof fn lemma_apply_one(y: Seq<LineModel>, op: OpModel, now: i64)
    ensures
        apply_all(y, seq![op], now) == apply_op(y, op, now),
{
    assert(seq![op].drop_first() =~= Seq::<OpModel>::empty());
    assert(seq![op][0] == op);
    assert(apply_all(apply_op(y, op, now), Seq::<OpModel>::empty(), now) == apply_op(y, op, now));
}

/// The renamed page keeps its ids apart and has no `_end` line.
proof fn lemma_renamed_well_formed(
    y: Seq<LineModel>, x: Seq<LineModel>, cur: Seq<LineModel>, op: OpModel, dl: Seq<Seq<char>>, rl: Seq<Seq<char>>,
)
    requires
        renamed(y, x, dl, rl),
        keeps_apart_one(cur, op, dl, rl),
        forall|a: int, b: int| 0 <= a < x.len() && 0 <= b < x.len() && a != b ==> (#[trigger] x[a]).id != (#[trigger] x[b]).id,
        forall|a: int| 0 <= a < x.len() ==> in_play_one(cur, op, (#[trigger] x[a]).id) && x[a].id != end_anchor(),
    ensures
        ids_well_formed(y),
{
    assert forall|a: int, b: int| 0 <= a < y.len() && 0 <= b < y.len() && a != b implies (#[trigger] y[a]).id != (#[trigger] y[b]).id by {
        assert(x[a].id != x[b].id);
        assert(in_play_one(cur, op, x[a].id));
        assert(in_play_one(cur, op, x[b].id));
    }
    assert forall|a: int| 0 <= a < y.len() implies (#[trigger] y[a]).id != end_anchor() by {
        assert(in_play_one(cur, op, x[a].id));
        assert(in_play_one(cur, op, end_anchor()));
    }
}

proof fn lemma_undo_replace(
    cur: Seq<LineModel>, op: OpModel, chunk: Seq<OpModel>, dl: Seq<Seq<char>>, rl: Seq<Seq<char>>, y: Seq<LineModel>, now: i64,
)
    requires
        op is Replace,
        ids_well_formed(cur),
        op_shapes(chunk) == inverse_group(cur, op),
        keeps_apart_one(cur, op, dl, rl),
        renamed(y, apply_op(cur, op, 0), dl, rl),
    ensures
        renamed(apply_all(y, rebind_all(chunk, dl, rl), now), cur, dl, rl),
{
    let id = op->Replace_id;
    lemma_first_index_bounds(cur, id, 0);
    assert(op_shapes(chunk).len() == chunk.len());
    match first_index(cur, id, 0) {
        Some(k) => {
            let cur1 = apply_op(cur, op, 0);
            assert(chunk.len() == 1);
            assert(shape(chunk[0]) == op_shapes(chunk)[0]);
            assert(chunk[0] == OpModel::Replace { id, text: cur[k].text });
            let op2 = rebind_op(chunk[0], dl, rl);
            assert(rebind_all(chunk, dl, rl) =~= seq![op2]);
            lemma_apply_one(y, op2, now);
            let rid = rebound(id, dl, rl);
            assert(y[k].id == rid);
            assert forall|q: int| 0 <= q < k implies (#[trigger] y[q]).id != rid by {
                assert(cur1[q] == cur[q]);
                assert(cur[q].id != id);
                lemma_in_page(cur, q);
                lemma_in_page(cur, k);
                assert(in_play_one(cur, op, cur[q].id));
                assert(in_play_one(cur, op, id));
            }
            lemma_first_index_at(y, rid, k, 0);
            let res = apply_op(y, op2, now);
            assert forall|i: int| 0 <= i < res.len() implies (#[trigger] res[i]).id == rebound(cur[i].id, dl, rl) && res[i].text == cur[i].text by {
                if i != k {
                    assert(cur1[i] == cur[i]);
                }
            }
        },
        None => {
            assert(chunk =~= Seq::<OpModel>::empty());
            assert(rebind_all(chunk, dl, rl) =~= Seq::<OpModel>::empty());
        },
    }
}

proof fn lemma_undo_insert(
    cur: Seq<LineModel>, op: OpModel, chunk: Seq<OpModel>, dl: Seq<Seq<char>>, rl: Seq<Seq<char>>, y: Seq<LineModel>, now: i64,
)
    requires
        op is Insert,
        ids_well_formed(cur),
        fresh_ids(inserted_ids(op), cur),
        op_shapes(chunk) == inverse_group(cur, op),
        keeps_apart_one(cur, op, dl, rl),
        renamed(y, apply_op(cur, op, 0), dl, rl),
    ensures
        renamed(apply_all(y, rebind_all(chunk, dl, rl), now), cur, dl, rl),
{
    let anchor = op->Insert_anchor;
    let lines = op->Insert_lines;
    let m = lines.len() as int;
    let ins = inserted_ids(op);
    lemma_first_index_bounds(cur, anchor, 0);
    let at = insert_at(cur, anchor);
    assert(0 <= at <= cur.len());
    let cur1 = apply_op(cur, op, 0);
    assert(cur1 == cur.take(at) + created_lines(lines, 0) + cur.skip(at));
    assert(cur1.len() == cur.len() + m);
    assert forall|i: int| 0 <= i < at implies #[trigger] cur1[i] == cur[i] by {}
    assert forall|i: int| at <= i < at + m implies (#[trigger] cur1[i]).id == ins[i - at] by {
        assert(cur1[i] == created_line(lines[i - at], 0));
    }
    assert forall|i: int| at + m <= i < cur1.len() implies #[trigger] cur1[i] == cur[i - m] by {}
    // The page after the insert: ids in play, distinct, none `_end`.
    assert forall|a: int| 0 <= a < cur1.len() implies in_play_one(cur, op, (#[trigger] cur1[a]).id) && cur1[a].id != end_anchor() by {
        if a < at {
            lemma_in_page(cur, a);
        } else if a < at + m {
            assert(ins[a - at] == cur1[a].id);
            assert(ins.contains(cur1[a].id));
        } else {
            lemma_in_page(cur, a - m);
        }
    }
    assert forall|a: int, b: int| 0 <= a < cur1.len() && 0 <= b < cur1.len() && a != b implies (#[trigger] cur1[a]).id != (#[trigger] cur1[b]).id by {
        let fa = at <= a < at + m;
        let fb = at <= b < at + m;
        let ca = if a < at { a } else { a - m };
        let cb = if b < at { b } else { b - m };
        if fa && fb {
            assert(ins[a - at] != ins[b - at]);
        } else if fa {
            lemma_in_page(cur, cb);
            assert(cur1[b].id == cur[cb].id);
            assert(!page_ids(cur).contains(ins[a - at]));
        } else if fb {
            lemma_in_page(cur, ca);
            assert(cur1[a].id == cur[ca].id);
            assert(!page_ids(cur).contains(ins[b - at]));
        } else {
            assert(cur1[a].id == cur[ca].id);
            assert(cur1[b].id == cur[cb].id);
        }
    }
    lemma_renamed_well_formed(y, cur1, cur, op, dl, rl);
    // The inverse deletes exactly the inserted lines.
    assert(op_shapes(chunk).len() == chunk.len());
    let del = rebind_all(chunk, dl, rl);
    assert(chunk.len() == m);
    assert forall|x: int| 0 <= x < del.len() implies (#[trigger] del[x]) == (OpModel::Delete { id: y[at + x].id }) by {
        assert(shape(chunk[x]) == op_shapes(chunk)[x]);
        assert(chunk[x] == OpModel::Delete { id: lines[x].0 });
        assert(cur1[at + x].id == ins[x]);
    }
    let front = y.take(at);
    assert(crate::editops::ids_disjoint(front, y.skip(at))) by {
        assert forall|a: int, b: int| 0 <= a < front.len() && 0 <= b < y.skip(at).len()
            implies (#[trigger] front[a]).id != (#[trigger] y.skip(at)[b]).id by {
            assert(y.skip(at)[b] == y[at + b]);
        }
    }
    lemma_deletes(y, front, at, del, now, m);
    assert(del.take(m) =~= del);
    assert(front + y.skip(at) =~= y);
    let res = front + y.skip(at + m);
    assert forall|i: int| 0 <= i < res.len() implies (#[trigger] res[i]).id == rebound(cur[i].id, dl, rl) && res[i].text == cur[i].text by {
        if i < at {
            assert(res[i] == y[i]);
        } else {
            assert(res[i] == y[i + m]);
            assert(cur1[i + m] == cur[i]);
        }
    }
}

proof fn lemma_undo_delete(
    cur: Seq<LineModel>, op: OpModel, chunk: Seq<OpModel>, dl: Seq<Seq<char>>, rl: Seq<Seq<char>>, y: Seq<LineModel>, now: i64,
)
    requires
        op is Delete,
        ids_well_formed(cur),
        page_single_lines(cur),
        first_index(cur, op->Delete_id, 0) is Some,
        op_shapes(chunk) == inverse_group(cur, op),
        keeps_apart_one(cur, op, dl, rl),
        renamed(y, apply_op(cur, op, 0), dl, rl),
    ensures
        restored_ids(chunk).len() == 1,
        rebound(op->Delete_id, dl, rl) == restored_ids(chunk)[0] ==> renamed(
            apply_all(y, rebind_all(chunk, dl, rl), now),
            cur,
            dl,
            rl,
        ),
{
    let id0 = op->Delete_id;
    lemma_first_index_bounds(cur, id0, 0);
    let i = first_index(cur, id0, 0)->Some_0;
    let a = if i + 1 < cur.len() { cur[i + 1].id } else { end_anchor() };
    assert(op_shapes(chunk).len() == chunk.len());
    assert(chunk.len() == 1);
    assert(shape(chunk[0]) == op_shapes(chunk)[0]);
    assert(forall|c: int| 0 <= c < cur[i].text.len() ==> cur[i].text[c] != '\n');
    lemma_split_plain(cur[i].text);
    let lines = chunk[0]->Insert_lines;
    assert(chunk[0] == OpModel::Insert { anchor: a, lines });
    let tl = lines.map_values(|l: (Seq<char>, Seq<char>)| l.1);
    assert(tl == split_on(cur[i].text, '\n'));
    assert(tl == seq![cur[i].text]);
    assert(tl.len() == lines.len());
    assert(lines.len() == 1);
    assert(lines[0].1 == tl[0]);
    assert(chunk.drop_last() =~= Seq::<OpModel>::empty());
    assert(restored_ids(chunk) == restored_ids(chunk.drop_last()).push(lines[0].0));
    assert(restored_ids(chunk) =~= seq![lines[0].0]);
    if rebound(id0, dl, rl) == restored_ids(chunk)[0] {
        lemma_without_unique(cur, i);
        let cur1 = apply_op(cur, op, 0);
        assert(cur1 == cur.remove(i));
        let op2 = rebind_op(chunk[0], dl, rl);
        let ra = rebound(a, dl, rl);
        assert(op2 == OpModel::Insert { anchor: ra, lines });
        assert(rebind_all(chunk, dl, rl) =~= seq![op2]);
        lemma_apply_one(y, op2, now);
        assert(in_play_one(cur, op, end_anchor()));
        if i + 1 < cur.len() {
            lemma_in_page(cur, i + 1);
            assert(in_play_one(cur, op, a));
            assert(ra != end_anchor());
            assert(y[i].id == ra) by {
                assert(cur1[i] == cur[i + 1]);
            }
            assert forall|q: int| 0 <= q < i implies (#[trigger] y[q]).id != ra by {
                assert(cur1[q] == cur[q]);
                lemma_in_page(cur, q);
                assert(in_play_one(cur, op, cur[q].id));
            }
            lemma_first_index_at(y, ra, i, 0);
        }
        assert(insert_at(y, ra) == i);
        let res = apply_op(y, op2, now);
        assert(res == y.take(i) + created_lines(lines, now) + y.skip(i));
        assert forall|q: int| 0 <= q < res.len() implies (#[trigger] res[q]).id == rebound(cur[q].id, dl, rl) && res[q].text == cur[q].text by {
            if q < i {
                assert(res[q] == y[q]);
                assert(cur1[q] == cur[q]);
            } else if q == i {
                assert(res[q] == created_line(lines[0], now));
            } else {
                assert(res[q] == y[q - 1]);
                assert(cur1[q - 1] == cur[q]);
            }
        }
    }
}

// ---------------------------------------------------------------------------
// What one operation does to the ids in play
// ---------------------------------------------------------------------------

/// Every id of the page after `op` was on the page before or came with `op`.
pub open spec fn ids_from(cur1: Seq<LineModel>, cur: Seq<LineModel>, op: OpModel) -> bool {
    forall|a: int| 0 <= a < cur1.len() ==> page_ids(cur).contains((#[trigger] cur1[a]).id)
        || inserted_ids(op).contains(cur1[a].id)
}

proof fn lemma_after_op(cur: Seq<LineModel>, op: OpModel)
    requires
        ids_well_formed(cur),
        page_single_lines(cur),
        op_single_lines(op),
        fresh_ids(inserted_ids(op), cur),
        op is Delete ==> first_index(cur, op->Delete_id, 0) is Some,
    ensures
        ids_well_formed(apply_op(cur, op, 0)),
        page_single_lines(apply_op(cur, op, 0)),
        ids_from(apply_op(cur, op, 0), cur, op),
        op is Delete ==> !page_ids(apply_op(cur, op, 0)).contains(op->Delete_id)
            && page_ids(cur).contains(op->Delete_id),
{
    let cur1 = apply_op(cur, op, 0);
    match op {
        OpModel::Insert { anchor, lines } => {
            let m = lines.len() as int;
            let ins = inserted_ids(op);
            lemma_first_index_bounds(cur, anchor, 0);
            let at = insert_at(cur, anchor);
            assert(cur1 == cur.take(at) + created_lines(lines, 0) + cur.skip(at));
            assert forall|i: int| 0 <= i < at implies #[trigger] cur1[i] == cur[i] by {}
            assert forall|i: int| at <= i < at + m implies #[trigger] cur1[i] == created_line(lines[i - at], 0) by {}
            assert forall|i: int| at + m <= i < cur1.len() implies #[trigger] cur1[i] == cur[i - m] by {}
            assert forall|a: int| 0 <= a < cur1.len() implies page_ids(cur).contains((#[trigger] cur1[a]).id)
                || ins.contains(cur1[a].id) by {
                if a < at {
                    lemma_in_page(cur, a);
                } else if a < at + m {
                    assert(ins[a - at] == cur1[a].id);
                } else {
                    lemma_in_page(cur, a - m);
                }
            }
            assert forall|a: int, b: int| 0 <= a < cur1.len() && 0 <= b < cur1.len() && a != b implies (#[trigger] cur1[a]).id != (#[trigger] cur1[b]).id by {
                let fa = at <= a < at + m;
                let fb = at <= b < at + m;
                let ca = if a < at { a } else { a - m };
                let cb = if b < at { b } else { b - m };
                if fa && fb {
                    assert(ins[a - at] != ins[b - at]);
                } else if fa {
                    lemma_in_page(cur, cb);
                    assert(!page_ids(cur).contains(ins[a - at]));
                } else if fb {
                    lemma_in_page(cur, ca);
                    assert(!page_ids(cur).contains(ins[b - at]));
                } else {
                    assert(cur1[a].id == cur[ca].id);
                }
            }
            assert forall|a: int| 0 <= a < cur1.len() implies (#[trigger] cur1[a]).id != end_anchor() by {
                if at <= a < at + m {
                    assert(ins[a - at] == cur1[a].id);
                }
            }
            assert forall|k: int, c: int| 0 <= k < cur1.len() && 0 <= c < cur1[k].text.len() implies (#[trigger] cur1[k].text[c]) != '\n' by {
                if at <= k < at + m {
                    assert(cur1[k].text == lines[k - at].1);
                    assert(lines[k - at].1[c] != '\n');
                } else if k < at {
                    assert(cur[k].text[c] != '\n');
                } else {
                    assert(cur[k - m].text[c] != '\n');
                }
            }
        },
        OpModel::Replace { id, text } => {
            lemma_first_index_bounds(cur, id, 0);
            assert forall|a: int| 0 <= a < cur1.len() implies page_ids(cur).contains((#[trigger] cur1[a]).id)
                || inserted_ids(op).contains(cur1[a].id) by {
                lemma_in_page(cur, a);
            }
            assert forall|k: int, c: int| 0 <= k < cur1.len() && 0 <= c < cur1[k].text.len() implies (#[trigger] cur1[k].text[c]) != '\n' by {
                if cur1[k].text != cur[k].text {
                    assert(text[c] != '\n');
                } else {
                    assert(cur[k].text[c] != '\n');
                }
            }
        },
        OpModel::Delete { id } => {
            lemma_first_index_bounds(cur, id, 0);
            let i = first_index(cur, id, 0)->Some_0;
            lemma_without_unique(cur, i);
            assert(cur1 == cur.remove(i));
            lemma_in_page(cur, i);
            assert forall|a: int| 0 <= a < cur1.len() implies page_ids(cur).contains((#[trigger] cur1[a]).id)
                || inserted_ids(op).contains(cur1[a].id) by {
                if a < i {
                    lemma_in_page(cur, a);
                } else {
                    lemma_in_page(cur, a + 1);
                }
            }
            assert forall|a: int, b: int| 0 <= a < cur1.len() && 0 <= b < cur1.len() && a != b implies (#[trigger] cur1[a]).id != (#[trigger] cur1[b]).id by {
                let ca = if a < i { a } else { a + 1 };
                let cb = if b < i { b } else { b + 1 };
                assert(cur1[a] == cur[ca]);
                assert(cur1[b] == cur[cb]);
            }
            assert forall|a: int| 0 <= a < cur1.len() implies (#[trigger] cur1[a]).id != end_anchor() by {
                let ca = if a < i { a } else { a + 1 };
                assert(cur1[a] == cur[ca]);
            }
            assert forall|k: int, c: int| 0 <= k < cur1.len() && 0 <= c < cur1[k].text.len() implies (#[trigger] cur1[k].text[c]) != '\n' by {
                let ck = if k < i { k } else { k + 1 };
                assert(cur1[k] == cur[ck]);
                assert(cur[ck].text[c] != '\n');
            }
            if page_ids(cur1).contains(id) {
                let a = choose|a: int| 0 <= a < page_ids(cur1).len() && page_ids(cur1)[a] == id;
                let ca = if a < i { a } else { a + 1 };
                assert(cur1[a] == cur[ca]);
                assert(false);
            }
        },
    }
}

// ---------------------------------------------------------------------------
// Splitting the inverse into the part of each operation
// ---------------------------------------------------------------------------

proof fn lemma_flatten_rev_front(g0: Seq<OpShape>, gs: Seq<Seq<OpShape>>)
    ensures
        flatten_rev(seq![g0] + gs) == flatten_rev(gs) + g0,
    decreases gs.len(),
{
    let all = seq![g0] + gs;
    if gs.len() == 0 {
        assert(all.drop_last() =~= Seq::<Seq<OpShape>>::empty());
        assert(all.last() == g0);
        assert(flatten_rev(all) =~= g0 + flatten_rev(Seq::<Seq<OpShape>>::empty()));
        assert(flatten_rev(gs) + g0 =~= g0);
        assert(g0 + flatten_rev(Seq::<Seq<OpShape>>::empty()) =~= g0);
    } else {
        assert(all.drop_last() =~= seq![g0] + gs.drop_last());
        assert(all.last() == gs.last());
        lemma_flatten_rev_front(g0, gs.drop_last());
        assert(gs.last() + (flatten_rev(gs.drop_last()) + g0) =~= flatten_rev(gs) + g0);
    }
}

/// The ids deleted by the first operation come last.
proof fn lemma_deleted_front(ops: Seq<OpModel>)
    requires
        ops.len() > 0,
    ensures
        deleted_ids(ops) == deleted_ids(ops.drop_first()) + (match ops[0] {
            OpModel::Delete { id } => seq![id],
            _ => Seq::<Seq<char>>::empty(),
        }),
    decreases ops.len(),
{
    let d0: Seq<Seq<char>> = match ops[0] {
        OpModel::Delete { id } => seq![id],
        _ => Seq::<Seq<char>>::empty(),
    };
    let dl: Seq<Seq<char>> = match ops.last() {
        OpModel::Delete { id } => seq![id],
        _ => Seq::<Seq<char>>::empty(),
    };
    assert(deleted_ids(ops) == dl + deleted_ids(ops.drop_last())) by {
        match ops.last() {
            OpModel::Delete { id } => {},
            _ => {
                assert(Seq::<Seq<char>>::empty() + deleted_ids(ops.drop_last()) =~= deleted_ids(ops.drop_last()));
            },
        }
    }
    if ops.len() == 1 {
        assert(ops.drop_last() =~= Seq::<OpModel>::empty());
        assert(ops.drop_first() =~= Seq::<OpModel>::empty());
        assert(ops.last() == ops[0]);
        assert(dl + Seq::<Seq<char>>::empty() =~= Seq::<Seq<char>>::empty() + d0);
    } else {
        lemma_deleted_front(ops.drop_last());
        assert(ops.drop_last()[0] == ops[0]);
        assert(ops.drop_last().drop_first() =~= ops.drop_first().drop_last());
        assert(ops.drop_first().last() == ops.last());
        let r = ops.drop_first();
        assert(deleted_ids(r) == dl + deleted_ids(r.drop_last())) by {
            match r.last() {
                OpModel::Delete { id } => {},
                _ => {
                    assert(Seq::<Seq<char>>::empty() + deleted_ids(r.drop_last()) =~= deleted_ids(r.drop_last()));
                },
            }
        }
        assert(dl + (deleted_ids(r.drop_last()) + d0) =~= (dl + deleted_ids(r.drop_last())) + d0);
    }
}

proof fn lemma_restored_concat(a: Seq<OpModel>, b: Seq<OpModel>)
    ensures
        restored_ids(a + b) == restored_ids(a) + restored_ids(b),
    decreases b.len(),
{
    if b.len() == 0 {
        assert(a + b =~= a);
        assert(restored_ids(a) + restored_ids(b) =~= restored_ids(a));
    } else {
        lemma_restored_concat(a, b.drop_last());
        assert((a + b).drop_last() =~= a + b.drop_last());
        assert((a + b).last() == b.last());
        match b.last() {
            OpModel::Insert { lines, .. } => {
                assert((restored_ids(a) + restored_ids(b.drop_last())).push(lines[0].0)
                    =~= restored_ids(a) + restored_ids(b.drop_last()).push(lines[0].0));
            },
            _ => {},
        }
    }
}

/// No insert, nothing restored.
proof fn lemma_restored_none(c: Seq<OpModel>)
    requires
        forall|k: int| 0 <= k < c.len() ==> !((#[trigger] c[k]) is Insert),
    ensures
        restored_ids(c) == Seq::<Seq<char>>::empty(),
    decreases c.len(),
{
    if c.len() > 0 {
        assert(c.last() == c[c.len() - 1]);
        lemma_restored_none(c.drop_last());
    }
}

/// The part of the inverse one operation contributes re-inserts one line
/// exactly when the operation deletes one.
proof fn lemma_chunk_restored(cur: Seq<LineModel>, op: OpModel, chunk: Seq<OpModel>)
    requires
        op_shapes(chunk) == inverse_group(cur, op),
        op is Delete ==> first_index(cur, op->Delete_id, 0) is Some,
    ensures
        restored_ids(chunk).len() == (if op is Delete { 1int } else { 0int }),
{
    assert(op_shapes(chunk).len() == chunk.len());
    if op is Delete {
        assert(chunk.len() == 1);
        assert(shape(chunk[0]) == op_shapes(chunk)[0]);
        assert(chunk[0] is Insert);
        assert(chunk.drop_last() =~= Seq::<OpModel>::empty());
        assert(chunk.last() == chunk[0]);
        assert(restored_ids(chunk) == restored_ids(chunk.drop_last()).push(chunk[0]->Insert_lines[0].0));
        assert(restored_ids(Seq::<OpModel>::empty()).len() == 0);
    } else {
        assert forall|k: int| 0 <= k < chunk.len() implies !((#[trigger] chunk[k]) is Insert) by {
            assert(shape(chunk[k]) == op_shapes(chunk)[k]);
        }
        lemma_restored_none(chunk);
    }
}

// ---------------------------------------------------------------------------
// A run of operations, one step at a time
// ---------------------------------------------------------------------------

/// The ids a run of operations deals with: the page's, those the run
/// inserts, and `_end`.
pub open spec fn in_play(cur: Seq<LineModel>, ops: Seq<OpModel>, t: Seq<char>) -> bool {
    page_ids(cur).contains(t) || all_inserted(ops).contains(t) || t == end_anchor()
}

proof fn lemma_step(cur: Seq<LineModel>, ops: Seq<OpModel>)
    requires
        ops.len() > 0,
        ids_well_formed(cur),
        page_single_lines(cur),
        ops_single_lines(ops),
        fresh_ids(all_inserted(ops), cur),
        deletes_hit(cur, ops),
    ensures
        ids_well_formed(apply_op(cur, ops[0], 0)),
        page_single_lines(apply_op(cur, ops[0], 0)),
        ops_single_lines(ops.drop_first()),
        fresh_ids(inserted_ids(ops[0]), cur),
        fresh_ids(all_inserted(ops.drop_first()), apply_op(cur, ops[0], 0)),
        deletes_hit(apply_op(cur, ops[0], 0), ops.drop_first()),
        forall|t: Seq<char>| #[trigger] in_play(apply_op(cur, ops[0], 0), ops.drop_first(), t) ==> in_play(cur, ops, t),
        forall|t: Seq<char>| #[trigger] in_play_one(cur, ops[0], t) ==> in_play(cur, ops, t),
        ops[0] is Delete ==> !in_play(apply_op(cur, ops[0], 0), ops.drop_first(), ops[0]->Delete_id)
            && page_ids(cur).contains(ops[0]->Delete_id) && ops[0]->Delete_id != end_anchor(),
{
    let o0 = ops[0];
    let rest = ops.drop_first();
    let cur1 = apply_op(cur, o0, 0);
    let ins0 = inserted_ids(o0);
    let insr = all_inserted(rest);
    let all = all_inserted(ops);
    assert(all == ins0 + insr);
    let n0 = ins0.len() as int;
    assert(op_single_lines(ops[0]));
    assert(fresh_ids(ins0, cur)) by {
        assert forall|a: int, b: int| 0 <= a < ins0.len() && 0 <= b < ins0.len() && a != b implies (#[trigger] ins0[a]) != (#[trigger] ins0[b]) by {
            assert(all[a] == ins0[a]);
            assert(all[b] == ins0[b]);
        }
        assert forall|a: int| 0 <= a < ins0.len() implies (#[trigger] ins0[a]) != end_anchor() && !page_ids(cur).contains(ins0[a]) by {
            assert(all[a] == ins0[a]);
        }
    }
    lemma_after_op(cur, o0);
    assert(ops_single_lines(rest)) by {
        assert forall|k: int| 0 <= k < rest.len() implies op_single_lines(#[trigger] rest[k]) by {
            assert(rest[k] == ops[k + 1]);
        }
    }
    assert forall|t: Seq<char>| page_ids(cur1).contains(t) implies page_ids(cur).contains(t) || ins0.contains(t) by {
        let q = choose|q: int| 0 <= q < page_ids(cur1).len() && page_ids(cur1)[q] == t;
        assert(cur1[q].id == t);
    }
    assert(fresh_ids(insr, cur1)) by {
        assert forall|a: int, b: int| 0 <= a < insr.len() && 0 <= b < insr.len() && a != b implies (#[trigger] insr[a]) != (#[trigger] insr[b]) by {
            assert(all[n0 + a] == insr[a]);
            assert(all[n0 + b] == insr[b]);
        }
        assert forall|a: int| 0 <= a < insr.len() implies (#[trigger] insr[a]) != end_anchor() && !page_ids(cur1).contains(insr[a]) by {
            assert(all[n0 + a] == insr[a]);
            if page_ids(cur1).contains(insr[a]) {
                if ins0.contains(insr[a]) {
                    let b = choose|b: int| 0 <= b < ins0.len() && ins0[b] == insr[a];
                    assert(all[b] == ins0[b]);
                }
            }
        }
    }
    assert forall|t: Seq<char>| ins0.contains(t) implies all.contains(t) by {
        let b = choose|b: int| 0 <= b < ins0.len() && ins0[b] == t;
        assert(all[b] == t);
    }
    assert forall|t: Seq<char>| insr.contains(t) implies all.contains(t) by {
        let b = choose|b: int| 0 <= b < insr.len() && insr[b] == t;
        assert(all[n0 + b] == t);
    }
    assert forall|t: Seq<char>| #[trigger] in_play(cur1, rest, t) implies in_play(cur, ops, t) by {}
    assert forall|t: Seq<char>| #[trigger] in_play_one(cur, o0, t) implies in_play(cur, ops, t) by {}
    if o0 is Delete {
        let id0 = o0->Delete_id;
        if insr.contains(id0) {
            let b = choose|b: int| 0 <= b < insr.len() && insr[b] == id0;
            assert(all[n0 + b] == id0);
        }
        let q = choose|q: int| 0 <= q < page_ids(cur).len() && page_ids(cur)[q] == id0;
        assert(cur[q].id == id0);
    }
}

/// What the rebinding does for a run: it leaves `_end` alone and every id
/// in play that the run does not delete, sends each deleted id to the id
/// its re-insertion brings back, and keeps the ids in play apart.
pub open spec fn rebinds(
    cur: Seq<LineModel>, ops: Seq<OpModel>, raw: Seq<OpModel>, dl: Seq<Seq<char>>, rl: Seq<Seq<char>>,
) -> bool {
    &&& rebound(end_anchor(), dl, rl) == end_anchor()
    &&& deleted_ids(ops).len() == restored_ids(raw).len()
    &&& forall|j: int| 0 <= j < deleted_ids(ops).len() ==> rebound(#[trigger] deleted_ids(ops)[j], dl, rl) == restored_ids(raw)[j]
    &&& forall|t: Seq<char>| #[trigger] in_play(cur, ops, t) && !deleted_ids(ops).contains(t) ==> rebound(t, dl, rl) == t
    &&& forall|s: Seq<char>, t: Seq<char>| #[trigger] in_play(cur, ops, s) && #[trigger] in_play(cur, ops, t) && s != t
        ==> rebound(s, dl, rl) != rebound(t, dl, rl)
}

/// Undoing a run: the run applied, then its inverse, gives the page back
/// with the ids of re-inserted lines renamed.
proof fn lemma_undo_run(
    cur: Seq<LineModel>, ops: Seq<OpModel>, raw: Seq<OpModel>, dl: Seq<Seq<char>>, rl: Seq<Seq<char>>,
    x: Seq<LineModel>, n1: i64, n2: i64,
)
    requires
        ids_well_formed(cur),
        page_single_lines(cur),
        ops_single_lines(ops),
        fresh_ids(all_inserted(ops), cur),
        deletes_hit(cur, ops),
        op_shapes(raw) == flatten_rev(inverse_groups(cur, ops)),
        rebinds(cur, ops, raw, dl, rl),
        same_lines(x, cur),
    ensures
        renamed(apply_all(apply_all(x, ops, n1), rebind_all(raw, dl, rl), n2), cur, dl, rl),
    decreases ops.len(),
{
    if ops.len() == 0 {
        assert(op_shapes(raw).len() == raw.len());
        assert(raw.len() == 0);
        assert(rebind_all(raw, dl, rl) =~= Seq::<OpModel>::empty());
        assert(deleted_ids(ops).len() == 0);
        assert forall|i: int| 0 <= i < x.len() implies (#[trigger] x[i]).id == rebound(cur[i].id, dl, rl) && x[i].text == cur[i].text by {
            lemma_in_page(cur, i);
            assert(in_play(cur, ops, cur[i].id));
        }
    } else {
        let o0 = ops[0];
        let rest = ops.drop_first();
        let cur1 = apply_op(cur, o0, 0);
        lemma_step(cur, ops);
        let g0 = inverse_group(cur, o0);
        let gs = inverse_groups(cur1, rest);
        assert(inverse_groups(cur, ops) == seq![g0] + gs);
        lemma_flatten_rev_front(g0, gs);
        let split = flatten_rev(gs).len() as int;
        let raw1 = raw.take(split);
        let c0 = raw.skip(split);
        assert(op_shapes(raw).len() == raw.len());
        assert(raw =~= raw1 + c0);
        let fr = flatten_rev(gs) + g0;
        assert(op_shapes(raw) == fr);
        assert forall|k: int| 0 <= k < raw1.len() implies #[trigger] op_shapes(raw1)[k] == flatten_rev(gs)[k] by {
            assert(op_shapes(raw)[k] == shape(raw[k]));
            assert(fr[k] == flatten_rev(gs)[k]);
        }
        assert(op_shapes(raw1) =~= flatten_rev(gs));
        assert forall|k: int| 0 <= k < c0.len() implies #[trigger] op_shapes(c0)[k] == g0[k] by {
            assert(op_shapes(raw)[split + k] == shape(raw[split + k]));
            assert(fr[split + k] == g0[k]);
        }
        assert(op_shapes(c0) =~= g0);
        lemma_restored_concat(raw1, c0);
        lemma_deleted_front(ops);
        assert(o0 is Delete ==> first_index(cur, o0->Delete_id, 0) is Some);
        lemma_chunk_restored(cur, o0, c0);
        let d0: Seq<Seq<char>> = match o0 {
            OpModel::Delete { id } => seq![id],
            _ => Seq::<Seq<char>>::empty(),
        };
        let dr = deleted_ids(rest);
        let da = deleted_ids(ops);
        assert(da == dr + d0);
        assert(d0.len() == restored_ids(c0).len());
        assert(dr.len() == restored_ids(raw1).len());
        assert(rebinds(cur1, rest, raw1, dl, rl)) by {
            assert forall|j: int| 0 <= j < dr.len() implies rebound(#[trigger] dr[j], dl, rl) == restored_ids(raw1)[j] by {
                assert(da[j] == dr[j]);
                assert(restored_ids(raw)[j] == restored_ids(raw1)[j]);
            }
            assert forall|t: Seq<char>| #[trigger] in_play(cur1, rest, t) && !dr.contains(t) implies rebound(t, dl, rl) == t by {
                assert(in_play(cur, ops, t));
                if da.contains(t) {
                    let j = choose|j: int| 0 <= j < da.len() && da[j] == t;
                    if j < dr.len() {
                        assert(dr[j] == t);
                    } else {
                        assert(d0[j - dr.len()] == t);
                    }
                }
            }
            assert forall|s1: Seq<char>, t: Seq<char>| #[trigger] in_play(cur1, rest, s1) && #[trigger] in_play(cur1, rest, t) && s1 != t
                implies rebound(s1, dl, rl) != rebound(t, dl, rl) by {
                assert(in_play(cur, ops, s1));
                assert(in_play(cur, ops, t));
            }
        }
        let x1 = apply_op(x, o0, n1);
        lemma_apply_op_same(x, cur, o0, n1, 0);
        lemma_undo_run(cur1, rest, raw1, dl, rl, x1, n1, n2);
        let after = apply_all(x1, rest, n1);
        let y = apply_all(after, rebind_all(raw1, dl, rl), n2);
        assert(apply_all(x, ops, n1) == after);
        assert(rebind_all(raw, dl, rl) =~= rebind_all(raw1, dl, rl) + rebind_all(c0, dl, rl));
        lemma_apply_all_concat(after, rebind_all(raw1, dl, rl), rebind_all(c0, dl, rl), n2);
        assert(keeps_apart_one(cur, o0, dl, rl)) by {
            assert(in_play(cur, ops, end_anchor()));
            assert forall|s1: Seq<char>, t: Seq<char>| #[trigger] in_play_one(cur, o0, s1) && #[trigger] in_play_one(cur, o0, t) && s1 != t
                implies rebound(s1, dl, rl) != rebound(t, dl, rl) by {
                assert(in_play(cur, ops, s1));
                assert(in_play(cur, ops, t));
            }
        }
        match o0 {
            OpModel::Insert { .. } => {
                lemma_undo_insert(cur, o0, c0, dl, rl, y, n2);
            },
            OpModel::Replace { .. } => {
                lemma_undo_replace(cur, o0, c0, dl, rl, y, n2);
            },
            OpModel::Delete { id } => {
                let j = dr.len() as int;
                assert(da[j] == id);
                assert(restored_ids(raw)[j] == restored_ids(c0)[0]);
                lemma_undo_delete(cur, o0, c0, dl, rl, y, n2);
            },
        }
    }
}

// ---------------------------------------------------------------------------
// The deleted and the restored ids of a run
// ---------------------------------------------------------------------------

pub open spec fn distinct(s: Seq<Seq<char>>) -> bool {
    forall|a: int, b: int| 0 <= a < s.len() && 0 <= b < s.len() && a != b ==> (#[trigger] s[a]) != (#[trigger] s[b])
}

proof fn lemma_all_inserted_concat(a: Seq<OpModel>, b: Seq<OpModel>)
    ensures
        all_inserted(a + b) == all_inserted(a) + all_inserted(b),
    decreases a.len(),
{
    if a.len() == 0 {
        assert(a + b =~= b);
        assert(all_inserted(a) + all_inserted(b) =~= all_inserted(b));
    } else {
        assert((a + b)[0] == a[0]);
        assert((a + b).drop_first() =~= a.drop_first() + b);
        lemma_all_inserted_concat(a.drop_first(), b);
        assert(inserted_ids(a[0]) + (all_inserted(a.drop_first()) + all_inserted(b))
            =~= (inserted_ids(a[0]) + all_inserted(a.drop_first())) + all_inserted(b));
    }
}

proof fn lemma_all_inserted_rebound(raw: Seq<OpModel>, dl: Seq<Seq<char>>, rl: Seq<Seq<char>>)
    ensures
        all_inserted(rebind_all(raw, dl, rl)) == all_inserted(raw),
    decreases raw.len(),
{
    if raw.len() > 0 {
        let rb = rebind_all(raw, dl, rl);
        assert(rb[0] == rebind_op(raw[0], dl, rl));
        assert(rb.drop_first() =~= rebind_all(raw.drop_first(), dl, rl));
        lemma_all_inserted_rebound(raw.drop_first(), dl, rl);
        assert(inserted_ids(rb[0]) == inserted_ids(raw[0]));
    }
}

/// What undoing a delete re-inserts: one line, its text unchanged.
proof fn lemma_delete_chunk(cur: Seq<LineModel>, op: OpModel, chunk: Seq<OpModel>)
    requires
        op is Delete,
        page_single_lines(cur),
        first_index(cur, op->Delete_id, 0) is Some,
        op_shapes(chunk) == inverse_group(cur, op),
    ensures
        chunk.len() == 1,
        chunk[0] is Insert,
        chunk[0]->Insert_lines.len() == 1,
        chunk[0]->Insert_lines[0].1 == cur[first_index(cur, op->Delete_id, 0)->Some_0].text,
        chunk[0]->Insert_anchor == (if first_index(cur, op->Delete_id, 0)->Some_0 + 1 < cur.len() {
            cur[first_index(cur, op->Delete_id, 0)->Some_0 + 1].id
        } else {
            end_anchor()
        }),
        restored_ids(chunk) == seq![chunk[0]->Insert_lines[0].0],
        all_inserted(chunk) == seq![chunk[0]->Insert_lines[0].0],
{
    let id0 = op->Delete_id;
    lemma_first_index_bounds(cur, id0, 0);
    let i = first_index(cur, id0, 0)->Some_0;
    assert(op_shapes(chunk).len() == chunk.len());
    assert(chunk.len() == 1);
    assert(shape(chunk[0]) == op_shapes(chunk)[0]);
    assert(forall|c: int| 0 <= c < cur[i].text.len() ==> cur[i].text[c] != '\n');
    lemma_split_plain(cur[i].text);
    let lines = chunk[0]->Insert_lines;
    let tl = lines.map_values(|l: (Seq<char>, Seq<char>)| l.1);
    assert(tl == split_on(cur[i].text, '\n'));
    assert(tl == seq![cur[i].text]);
    assert(tl.len() == lines.len());
    assert(lines[0].1 == tl[0]);
    assert(chunk.drop_last() =~= Seq::<OpModel>::empty());
    assert(restored_ids(chunk) == restored_ids(chunk.drop_last()).push(lines[0].0));
    assert(restored_ids(chunk) =~= seq![lines[0].0]);
    assert(chunk.drop_first() =~= Seq::<OpModel>::empty());
    assert(inserted_ids(chunk[0]) =~= seq![lines[0].0]);
    assert(all_inserted(Seq::<OpModel>::empty()) == Seq::<Seq<char>>::empty());
    assert(all_inserted(chunk) == inserted_ids(chunk[0]) + all_inserted(chunk.drop_first()));
    assert(all_inserted(chunk) =~= seq![lines[0].0]);
}

/// Facts of a run whose deletes all hit: the deleted ids are distinct ids
/// in play, there are as many as re-inserted lines, and each restored id
/// is one the inverse inserts.
proof fn lemma_run_facts(cur: Seq<LineModel>, ops: Seq<OpModel>, raw: Seq<OpModel>)
    requires
        ids_well_formed(cur),
        page_single_lines(cur),
        ops_single_lines(ops),
        fresh_ids(all_inserted(ops), cur),
        deletes_hit(cur, ops),
        op_shapes(raw) == flatten_rev(inverse_groups(cur, ops)),
    ensures
        deleted_ids(ops).len() == restored_ids(raw).len(),
        distinct(deleted_ids(ops)),
        forall|j: int| 0 <= j < deleted_ids(ops).len() ==> in_play(cur, ops, #[trigger] deleted_ids(ops)[j])
            && deleted_ids(ops)[j] != end_anchor(),
        forall|j: int| 0 <= j < restored_ids(raw).len() ==> all_inserted(raw).contains(#[trigger] restored_ids(raw)[j]),
        distinct(all_inserted(raw)) ==> distinct(restored_ids(raw)),
    decreases ops.len(),
{
    if ops.len() == 0 {
        assert(op_shapes(raw).len() == raw.len());
        assert(raw.len() == 0);
    } else {
        let o0 = ops[0];
        let rest = ops.drop_first();
        let cur1 = apply_op(cur, o0, 0);
        lemma_step(cur, ops);
        let g0 = inverse_group(cur, o0);
        let gs = inverse_groups(cur1, rest);
        assert(inverse_groups(cur, ops) == seq![g0] + gs);
        lemma_flatten_rev_front(g0, gs);
        let split = flatten_rev(gs).len() as int;
        let raw1 = raw.take(split);
        let c0 = raw.skip(split);
        assert(op_shapes(raw).len() == raw.len());
        assert(raw =~= raw1 + c0);
        let fr = flatten_rev(gs) + g0;
        assert(op_shapes(raw) == fr);
        assert forall|k: int| 0 <= k < raw1.len() implies #[trigger] op_shapes(raw1)[k] == flatten_rev(gs)[k] by {
            assert(op_shapes(raw)[k] == shape(raw[k]));
            assert(fr[k] == flatten_rev(gs)[k]);
        }
        assert(op_shapes(raw1) =~= flatten_rev(gs));
        assert forall|k: int| 0 <= k < c0.len() implies #[trigger] op_shapes(c0)[k] == g0[k] by {
            assert(op_shapes(raw)[split + k] == shape(raw[split + k]));
            assert(fr[split + k] == g0[k]);
        }
        assert(op_shapes(c0) =~= g0);
        lemma_run_facts(cur1, rest, raw1);
        lemma_restored_concat(raw1, c0);
        lemma_all_inserted_concat(raw1, c0);
        lemma_deleted_front(ops);
        assert(o0 is Delete ==> first_index(cur, o0->Delete_id, 0) is Some);
        lemma_chunk_restored(cur, o0, c0);
        let d0: Seq<Seq<char>> = match o0 {
            OpModel::Delete { id } => seq![id],
            _ => Seq::<Seq<char>>::empty(),
        };
        let dr = deleted_ids(rest);
        let da = deleted_ids(ops);
        let rr1 = restored_ids(raw1);
        let rr = restored_ids(raw);
        let ai1 = all_inserted(raw1);
        let ai = all_inserted(raw);
        assert(da == dr + d0);
        assert(rr == rr1 + restored_ids(c0));
        assert(ai == ai1 + all_inserted(c0));
        assert forall|j: int| 0 <= j < da.len() implies in_play(cur, ops, #[trigger] da[j]) && da[j] != end_anchor() by {
            if j < dr.len() {
                assert(da[j] == dr[j]);
                assert(in_play(cur1, rest, dr[j]));
            } else {
                assert(da[j] == d0[0]);
            }
        }
        assert(distinct(da)) by {
            assert forall|a: int, b: int| 0 <= a < da.len() && 0 <= b < da.len() && a != b implies (#[trigger] da[a]) != (#[trigger] da[b]) by {
                if a < dr.len() && b < dr.len() {
                    assert(da[a] == dr[a] && da[b] == dr[b]);
                } else if a < dr.len() {
                    assert(da[a] == dr[a]);
                    assert(in_play(cur1, rest, dr[a]));
                } else if b < dr.len() {
                    assert(da[b] == dr[b]);
                    assert(in_play(cur1, rest, dr[b]));
                }
            }
        }
        assert forall|t: Seq<char>| ai1.contains(t) implies ai.contains(t) by {
            let q = choose|q: int| 0 <= q < ai1.len() && ai1[q] == t;
            assert(ai[q] == t);
        }
        if o0 is Delete {
            lemma_delete_chunk(cur, o0, c0);
            assert(ai[ai1.len() as int] == c0[0]->Insert_lines[0].0);
        }
        assert forall|j: int| 0 <= j < rr.len() implies ai.contains(#[trigger] rr[j]) by {
            if j < rr1.len() {
                assert(rr[j] == rr1[j]);
                assert(ai1.contains(rr1[j]));
            } else {
                assert(ai[ai1.len() as int] == rr[j]);
            }
        }
        if distinct(ai) {
            assert(distinct(ai1)) by {
                assert forall|a: int, b: int| 0 <= a < ai1.len() && 0 <= b < ai1.len() && a != b implies (#[trigger] ai1[a]) != (#[trigger] ai1[b]) by {
                    assert(ai[a] == ai1[a] && ai[b] == ai1[b]);
                }
            }
            assert forall|a: int, b: int| 0 <= a < rr.len() && 0 <= b < rr.len() && a != b implies (#[trigger] rr[a]) != (#[trigger] rr[b]) by {
                if a < rr1.len() && b < rr1.len() {
                    assert(rr[a] == rr1[a] && rr[b] == rr1[b]);
                } else if a < rr1.len() {
                    assert(rr[a] == rr1[a]);
                    assert(ai1.contains(rr1[a]));
                    let q = choose|q: int| 0 <= q < ai1.len() && ai1[q] == rr1[a];
                    assert(ai[q] == ai1[q]);
                    assert(ai[ai1.len() as int] == rr[b]);
                } else if b < rr1.len() {
                    assert(rr[b] == rr1[b]);
                    assert(ai1.contains(rr1[b]));
                    let q = choose|q: int| 0 <= q < ai1.len() && ai1[q] == rr1[b];
                    assert(ai[q] == ai1[q]);
                    assert(ai[ai1.len() as int] == rr[a]);
                }
            }
        }
    }
}

// ---------------------------------------------------------------------------
// Undoing a vertical move
// ---------------------------------------------------------------------------

proof fn lemma_no_inserts(ops: Seq<OpModel>)
    requires
        forall|k: int| 0 <= k < ops.len() ==> (#[trigger] ops[k]) is Delete,
    ensures
        all_inserted(ops) == Seq::<Seq<char>>::empty(),
    decreases ops.len(),
{
    if ops.len() > 0 {
        assert(ops[0] is Delete);
        assert forall|k: int| 0 <= k < ops.drop_first().len() implies (#[trigger] ops.drop_first()[k]) is Delete by {
            assert(ops.drop_first()[k] == ops[k + 1]);
        }
        lemma_no_inserts(ops.drop_first());
        assert(inserted_ids(ops[0]) + Seq::<Seq<char>>::empty() =~= Seq::<Seq<char>>::empty());
    }
}

/// The page with the run `start..start + n` taken out.
pub open spec fn without_run(page: Seq<LineModel>, start: int, n: int) -> Seq<LineModel> {
    page.take(start) + page.skip(start + n)
}

/// What a recognized vertical move consists of.
proof fn lemma_move_shape(page: Seq<LineModel>, ops: Seq<OpModel>)
    requires
        spec_invert_move(page, ops) is Some,
    ensures
        ({
            let n = ops.len() - 1;
            let inserted = ops.last()->Insert_lines;
            let start = first_index(page, ops[0]->Delete_id, 0)->Some_0;
            let anchor_b = if start + n < page.len() { page[start + n].id } else { end_anchor() };
            &&& ops.last() is Insert
            &&& n == inserted.len() && n > 0
            &&& first_index(page, ops[0]->Delete_id, 0) is Some
            &&& 0 <= start && start + n <= page.len()
            &&& forall|k: int| 0 <= k < n ==> (#[trigger] ops[k]) == (OpModel::Delete { id: page[start + k].id })
            &&& forall|k: int| 0 <= k < n ==> (#[trigger] page[start + k]).text == inserted[k].1
            &&& forall|k: int, l: int| 0 <= k < n && 0 <= l < page.len() ==> (#[trigger] page[l]).id != (#[trigger] inserted[k]).0
            &&& spec_invert_move(page, ops)->Some_0 == Seq::new(n as nat, |k: int| OpShape::Delete { id: inserted[k].0 })
                + seq![insert_shape(anchor_b, Seq::new(n as nat, |k: int| page[start + k].text))]
        }),
{
    let dels = ops.drop_last();
    let n = dels.len() as int;
    let ids = Seq::new(n as nat, |k: int| dels[k]->Delete_id);
    assert(ids[0] == ops[0]->Delete_id);
    lemma_first_index_bounds(page, ids[0], 0);
    let start = first_index(page, ids[0], 0)->Some_0;
    assert forall|k: int| 0 <= k < n implies (#[trigger] ops[k]) == (OpModel::Delete { id: page[start + k].id }) by {
        assert(dels[k] == ops[k]);
        assert(dels[k] is Delete);
        assert(ids[k] == dels[k]->Delete_id);
        assert(page[start + k].id == ids[k]);
    }
}

/// Applying the move: the run goes, its texts come back before the insert's
/// anchor under the new ids.
proof fn lemma_move_forward(page: Seq<LineModel>, ops: Seq<OpModel>, start: int, n1: i64)
    requires
        ids_well_formed(page),
        ops.len() > 1,
        ops.last() is Insert,
        ops.last()->Insert_lines.len() == ops.len() - 1,
        0 <= start,
        start + ops.len() - 1 <= page.len(),
        forall|k: int| 0 <= k < ops.len() - 1 ==> (#[trigger] ops[k]) == (OpModel::Delete { id: page[start + k].id }),
        forall|k: int, l: int| 0 <= k < ops.len() - 1 && 0 <= l < page.len()
            ==> (#[trigger] page[l]).id != (#[trigger] ops.last()->Insert_lines[k]).0,
        fresh_ids(all_inserted(ops), page),
    ensures
        ({
            let n = ops.len() - 1;
            let p1 = without_run(page, start, n);
            let at = insert_at(p1, ops.last()->Insert_anchor);
            let p2 = p1.take(at) + created_lines(ops.last()->Insert_lines, n1) + p1.skip(at);
            &&& 0 <= at <= p1.len()
            &&& apply_all(page, ops, n1) == p2
            &&& ids_well_formed(p2)
            &&& forall|x: int| 0 <= x < n ==> (#[trigger] p2[at + x]).id == ops.last()->Insert_lines[x].0
            &&& p2.take(at) + p2.skip(at + n) == p1
        }),
{
    let last = ops.last();
    let inserted = last->Insert_lines;
    let dels = ops.drop_last();
    let n = dels.len() as int;
    assert forall|x: int| 0 <= x < dels.len() implies (#[trigger] dels[x]) == (OpModel::Delete { id: page[start + x].id }) by {
        assert(dels[x] == ops[x]);
    }
    let front = page.take(start);
    assert(crate::editops::ids_disjoint(front, page.skip(start))) by {
        assert forall|a: int, b: int| 0 <= a < front.len() && 0 <= b < page.skip(start).len()
            implies (#[trigger] front[a]).id != (#[trigger] page.skip(start)[b]).id by {
            assert(page.skip(start)[b] == page[start + b]);
        }
    }
    lemma_deletes(page, front, start, dels, n1, n);
    assert(dels.take(n) =~= dels);
    assert(front + page.skip(start) =~= page);
    let p1 = without_run(page, start, n);
    assert(apply_all(page, dels, n1) == p1);
    assert(dels.push(last) =~= ops);
    crate::editops::lemma_apply_all_push(page, dels, last, n1);
    assert(apply_all(page, ops, n1) == apply_op(p1, last, n1));
    assert forall|q: int| 0 <= q < p1.len() implies #[trigger] p1[q] == page[if q < start { q } else { q + n }] by {}
    lemma_first_index_bounds(p1, last->Insert_anchor, 0);
    let at = insert_at(p1, last->Insert_anchor);
    let p2 = p1.take(at) + created_lines(inserted, n1) + p1.skip(at);
    assert(apply_op(p1, last, n1) == p2);
    assert forall|k: int| 0 <= k < dels.len() implies (#[trigger] dels[k]) is Delete by {
        assert(dels[k] == ops[k]);
    }
    lemma_no_inserts(dels);
    lemma_all_inserted_concat(dels, seq![last]);
    assert(dels + seq![last] =~= ops);
    assert(seq![last].drop_first() =~= Seq::<OpModel>::empty());
    assert(all_inserted(Seq::<OpModel>::empty()) == Seq::<Seq<char>>::empty());
    assert(all_inserted(seq![last]) == inserted_ids(seq![last][0]) + all_inserted(seq![last].drop_first()));
    let ins = inserted_ids(last);
    assert(all_inserted(ops) =~= ins);
    assert forall|x: int| 0 <= x < n implies #[trigger] ins[x] == inserted[x].0 by {}
    assert forall|q: int| 0 <= q < p2.len() implies (#[trigger] p2[q]).id == (if q < at {
        p1[q].id
    } else if q < at + n {
        inserted[q - at].0
    } else {
        p1[q - n].id
    }) by {}
    assert forall|a: int, b: int| 0 <= a < p2.len() && 0 <= b < p2.len() && a != b implies (#[trigger] p2[a]).id != (#[trigger] p2[b]).id by {
        let fa = at <= a < at + n;
        let fb = at <= b < at + n;
        let ca = if a < at { a } else { a - n };
        let cb = if b < at { b } else { b - n };
        if fa && fb {
            assert(ins[a - at] != ins[b - at]);
        } else if fa {
            let pb = if cb < start { cb } else { cb + n };
            assert(p1[cb] == page[pb]);
            assert(page[pb].id != inserted[a - at].0);
        } else if fb {
            let pa = if ca < start { ca } else { ca + n };
            assert(p1[ca] == page[pa]);
            assert(page[pa].id != inserted[b - at].0);
        } else {
            let pa = if ca < start { ca } else { ca + n };
            let pb = if cb < start { cb } else { cb + n };
            assert(p1[ca] == page[pa]);
            assert(p1[cb] == page[pb]);
        }
    }
    assert forall|a: int| 0 <= a < p2.len() implies (#[trigger] p2[a]).id != end_anchor() by {
        if at <= a < at + n {
            assert(ins[a - at] != end_anchor());
        } else {
            let ca = if a < at { a } else { a - n };
            assert(p1[ca] == page[if ca < start { ca } else { ca + n }]);
        }
    }
    assert(p2.take(at) + p2.skip(at + n) =~= p1);
}

proof fn lemma_undo_move(page: Seq<LineModel>, ops: Seq<OpModel>, inv: Seq<OpModel>, n1: i64, n2: i64)
    requires
        ids_well_formed(page),
        page_single_lines(page),
        fresh_ids(all_inserted(ops), page),
        spec_invert_move(page, ops) is Some,
        op_shapes(inv) == spec_invert_move(page, ops)->Some_0,
    ensures
        texts(apply_all(apply_all(page, ops, n1), inv, n2)) == texts(page),
{
    lemma_move_shape(page, ops);
    let n = ops.len() - 1;
    let inserted = ops.last()->Insert_lines;
    let start = first_index(page, ops[0]->Delete_id, 0)->Some_0;
    let anchor_b = if start + n < page.len() { page[start + n].id } else { end_anchor() };
    let src_texts = Seq::new(n as nat, |k: int| page[start + k].text);
    let shp = spec_invert_move(page, ops)->Some_0;
    lemma_move_forward(page, ops, start, n1);
    let p1 = without_run(page, start, n);
    let at = insert_at(p1, ops.last()->Insert_anchor);
    let p2 = p1.take(at) + created_lines(inserted, n1) + p1.skip(at);
    // Undo: delete what came in, put the run back before the line after it.
    assert(op_shapes(inv).len() == inv.len());
    assert(inv.len() == n + 1);
    let idel = inv.take(n);
    assert forall|x: int| 0 <= x < idel.len() implies (#[trigger] idel[x]) == (OpModel::Delete { id: p2[at + x].id }) by {
        assert(shape(inv[x]) == op_shapes(inv)[x]);
        assert(op_shapes(inv)[x] == shp[x]);
    }
    let front2 = p2.take(at);
    assert(crate::editops::ids_disjoint(front2, p2.skip(at))) by {
        assert forall|a: int, b: int| 0 <= a < front2.len() && 0 <= b < p2.skip(at).len()
            implies (#[trigger] front2[a]).id != (#[trigger] p2.skip(at)[b]).id by {
            assert(p2.skip(at)[b] == p2[at + b]);
        }
    }
    lemma_deletes(p2, front2, at, idel, n2, n);
    assert(idel.take(n) =~= idel);
    assert(front2 + p2.skip(at) =~= p2);
    assert(apply_all(p2, idel, n2) == p1);
    let back = inv[n];
    assert(idel.push(back) =~= inv);
    crate::editops::lemma_apply_all_push(p2, idel, back, n2);
    assert(shape(back) == shp[n]);
    let lines = back->Insert_lines;
    assert(back == OpModel::Insert { anchor: anchor_b, lines });
    assert(single_lines(src_texts)) by {
        assert forall|k: int, c: int| 0 <= k < src_texts.len() && 0 <= c < src_texts[k].len() implies (#[trigger] src_texts[k][c]) != '\n' by {
            assert(src_texts[k] == page[start + k].text);
            assert(page[start + k].text[c] != '\n');
        }
    }
    lemma_split_join(src_texts);
    let tl = lines.map_values(|l: (Seq<char>, Seq<char>)| l.1);
    assert(tl == src_texts);
    assert(tl.len() == lines.len());
    assert forall|q: int| 0 <= q < p1.len() implies #[trigger] p1[q] == page[if q < start { q } else { q + n }] by {}
    if start + n < page.len() {
        assert(p1[start] == page[start + n]);
        assert forall|a: int, b: int| 0 <= a < p1.len() && 0 <= b < p1.len() && a != b implies (#[trigger] p1[a]).id != (#[trigger] p1[b]).id by {
            assert(p1[a] == page[if a < start { a } else { a + n }]);
            assert(p1[b] == page[if b < start { b } else { b + n }]);
        }
        lemma_first_index_unique(p1, start);
    }
    assert(insert_at(p1, anchor_b) == start);
    let res = apply_op(p1, back, n2);
    assert(res == p1.take(start) + created_lines(lines, n2) + p1.skip(start));
    assert(texts(res) =~= texts(page)) by {
        assert forall|q: int| 0 <= q < page.len() implies #[trigger] res[q].text == page[q].text by {
            if q < start {
                assert(res[q] == p1[q]);
            } else if q < start + n {
                assert(res[q] == created_line(lines[q - start], n2));
                assert(lines[q - start].1 == tl[q - start]);
            } else {
                assert(res[q] == p1[q - n]);
            }
        }
    }
}

// ---------------------------------------------------------------------------
// The law
// ---------------------------------------------------------------------------

proof fn lemma_first_pos_bounds(s: Seq<Seq<char>>, x: Seq<char>, k: int)
    requires
        0 <= k,
    ensures
        match first_pos(s, x, k) {
            Some(i) => k <= i < s.len() && s[i] == x,
            None => forall|q: int| k <= q < s.len() ==> s[q] != x,
        },
    decreases s.len() - k,
{
    if k < s.len() && s[k] != x {
        lemma_first_pos_bounds(s, x, k + 1);
    }
}

/// The rebinding sends an id to its re-insertion's id if the run deleted
/// it, and leaves it alone otherwise.
proof fn lemma_rebound_cases(t: Seq<char>, dl: Seq<Seq<char>>, rl: Seq<Seq<char>>)
    requires
        distinct(dl),
        dl.len() == rl.len(),
    ensures
        dl.contains(t) ==> exists|j: int| 0 <= j < dl.len() && dl[j] == t && rebound(t, dl, rl) == rl[j],
        !dl.contains(t) ==> rebound(t, dl, rl) == t,
{
    lemma_first_pos_bounds(dl, t, 0);
    match first_pos(dl, t, 0) {
        Some(i) => {
            assert(dl[i] == t);
        },
        None => {
            if dl.contains(t) {
                let j = choose|j: int| 0 <= j < dl.len() && dl[j] == t;
                assert(dl[j] != t);
            }
        },
    }
}

/// Undo gives the text back: apply operations to a page, then apply the
/// inverse computed for them against that page, and every line has its
/// text again, in order. Re-inserted lines come back under new ids.
///
/// This holds for a page whose ids are distinct (none `_end`) and whose
/// lines hold no line break, for operations that insert only new, distinct
/// ids. Unless the operations are a vertical move, it also asks that they
/// write no line break, that each delete names a line on the page when it
/// runs, and that the ids the inverse inserts are new as well.
pub proof fn law_undo_restores_the_text(
    page: Seq<LineModel>, ops: Seq<OpModel>, inv: Seq<OpModel>, n1: i64, n2: i64,
)
    requires
        ids_well_formed(page),
        page_single_lines(page),
        fresh_ids(all_inserted(ops), page),
        inverts(page, ops, inv),
        spec_invert_move(page, ops) is None ==> {
            &&& ops_single_lines(ops)
            &&& deletes_hit(page, ops)
            &&& fresh_ids(all_inserted(ops) + all_inserted(inv), page)
        },
    ensures
        texts(apply_all(apply_all(page, ops, n1), inv, n2)) == texts(page),
{
    if spec_invert_move(page, ops) is Some {
        lemma_undo_move(page, ops, inv, n1, n2);
    } else {
        let raw = choose|raw: Seq<OpModel>| {
            &&& op_shapes(raw) == flatten_rev(inverse_groups(page, ops))
            &&& inv == raw.map_values(|op: OpModel| rebind_op(op, deleted_ids(ops), restored_ids(raw)))
        };
        let dl = deleted_ids(ops);
        let rl = restored_ids(raw);
        assert(inv =~= rebind_all(raw, dl, rl));
        lemma_run_facts(page, ops, raw);
        lemma_all_inserted_rebound(raw, dl, rl);
        let io = all_inserted(ops);
        let ir = all_inserted(raw);
        let all = io + ir;
        let no = io.len() as int;
        assert(distinct(ir)) by {
            assert forall|a: int, b: int| 0 <= a < ir.len() && 0 <= b < ir.len() && a != b implies (#[trigger] ir[a]) != (#[trigger] ir[b]) by {
                assert(all[no + a] == ir[a] && all[no + b] == ir[b]);
            }
        }
        // A restored id is none of the ids in play.
        assert forall|j: int, t: Seq<char>| 0 <= j < rl.len() && #[trigger] in_play(page, ops, t) implies (#[trigger] rl[j]) != t by {
            assert(ir.contains(rl[j]));
            let q = choose|q: int| 0 <= q < ir.len() && ir[q] == rl[j];
            assert(all[no + q] == rl[j]);
            if io.contains(t) {
                let q2 = choose|q2: int| 0 <= q2 < io.len() && io[q2] == t;
                assert(all[q2] == t);
            }
        }
        assert(!dl.contains(end_anchor())) by {
            if dl.contains(end_anchor()) {
                let j = choose|j: int| 0 <= j < dl.len() && dl[j] == end_anchor();
                assert(dl[j] != end_anchor());
            }
        }
        lemma_rebound_cases(end_anchor(), dl, rl);
        assert(rebinds(page, ops, raw, dl, rl)) by {
            assert forall|j: int| 0 <= j < dl.len() implies rebound(#[trigger] dl[j], dl, rl) == rl[j] by {
                lemma_first_pos_bounds(dl, dl[j], 0);
                let i = first_pos(dl, dl[j], 0)->Some_0;
                assert(dl[i] == dl[j]);
            }
            assert forall|t: Seq<char>| #[trigger] in_play(page, ops, t) && !dl.contains(t) implies rebound(t, dl, rl) == t by {
                lemma_rebound_cases(t, dl, rl);
            }
            assert forall|s1: Seq<char>, t: Seq<char>| #[trigger] in_play(page, ops, s1) && #[trigger] in_play(page, ops, t) && s1 != t
                implies rebound(s1, dl, rl) != rebound(t, dl, rl) by {
                lemma_rebound_cases(s1, dl, rl);
                lemma_rebound_cases(t, dl, rl);
                if dl.contains(s1) && dl.contains(t) {
                    let a = choose|j: int| 0 <= j < dl.len() && dl[j] == s1 && rebound(s1, dl, rl) == rl[j];
                    let b = choose|j: int| 0 <= j < dl.len() && dl[j] == t && rebound(t, dl, rl) == rl[j];
                    assert(rl[a] != rl[b]);
                } else if dl.contains(s1) {
                    let a = choose|j: int| 0 <= j < dl.len() && dl[j] == s1 && rebound(s1, dl, rl) == rl[j];
                    assert(rl[a] != t);
                } else if dl.contains(t) {
                    let b = choose|j: int| 0 <= j < dl.len() && dl[j] == t && rebound(t, dl, rl) == rl[j];
                    assert(rl[b] != s1);
                }
            }
        }
        assert(same_lines(page, page));
        lemma_undo_run(page, ops, raw, dl, rl, page, n1, n2);
        let res = apply_all(apply_all(page, ops, n1), inv, n2);
        assert(texts(res) =~= texts(page)) by {
            assert forall|q: int| 0 <= q < page.len() implies #[trigger] res[q].text == page[q].text by {}
        }
    }
}


/// Every delete among `shs` names one of `ids`.
pub open spec fn deletes_within(shs: Seq<OpShape>, ids: Seq<Seq<char>>) -> bool {
    forall|k: int| 0 <= k < shs.len() && (#[trigger] shs[k]) is Delete ==> ids.contains(shs[k]->Delete_id)
}

proof fn lemma_groups_delete_inserted(cur: Seq<LineModel>, ops: Seq<OpModel>)
    ensures
        forall|g: int| 0 <= g < inverse_groups(cur, ops).len() ==> deletes_within(
            #[trigger] inverse_groups(cur, ops)[g],
            all_inserted(ops),
        ),
        inverse_groups(cur, ops).len() == ops.len(),
    decreases ops.len(),
{
    if ops.len() > 0 {
        let rest = ops.drop_first();
        let cur1 = apply_op(cur, ops[0], 0);
        lemma_groups_delete_inserted(cur1, rest);
        let gs = inverse_groups(cur, ops);
        let ai = all_inserted(ops);
        assert(ai == inserted_ids(ops[0]) + all_inserted(rest));
        assert forall|g: int| 0 <= g < gs.len() implies deletes_within(#[trigger] gs[g], ai) by {
            if g == 0 {
                let g0 = inverse_group(cur, ops[0]);
                assert(gs[0] == g0);
                assert forall|k: int| 0 <= k < g0.len() && (#[trigger] g0[k]) is Delete implies ai.contains(g0[k]->Delete_id) by {
                    match ops[0] {
                        OpModel::Insert { anchor, lines } => {
                            let ids = inserted_ids(ops[0]);
                            assert(ids[k] == lines[k].0);
                            assert(ai[k] == ids[k]);
                        },
                        OpModel::Replace { id, text } => {},
                        OpModel::Delete { id } => {},
                    }
                }
            } else {
                assert(gs[g] == inverse_groups(cur1, rest)[g - 1]);
                let h = gs[g];
                let ar = all_inserted(rest);
                assert forall|k: int| 0 <= k < h.len() && (#[trigger] h[k]) is Delete implies ai.contains(h[k]->Delete_id) by {
                    assert(ar.contains(h[k]->Delete_id));
                    let q = choose|q: int| 0 <= q < ar.len() && ar[q] == h[k]->Delete_id;
                    assert(ai[inserted_ids(ops[0]).len() + q] == ar[q]);
                }
            }
        }
    }
}

proof fn lemma_flatten_deletes_within(gs: Seq<Seq<OpShape>>, ids: Seq<Seq<char>>)
    requires
        forall|g: int| 0 <= g < gs.len() ==> deletes_within(#[trigger] gs[g], ids),
    ensures
        deletes_within(flatten_rev(gs), ids),
    decreases gs.len(),
{
    if gs.len() > 0 {
        lemma_flatten_deletes_within(gs.drop_last(), ids);
        let a = gs.last();
        let b = flatten_rev(gs.drop_last());
        assert(deletes_within(a, ids));
        assert forall|k: int| 0 <= k < (a + b).len() && (#[trigger] (a + b)[k]) is Delete implies ids.contains((a + b)[k]->Delete_id) by {
            if k < a.len() {
                assert((a + b)[k] == a[k]);
            } else {
                assert((a + b)[k] == b[k - a.len()]);
            }
        }
    }
}

/// Undo gives the ids back too: apply operations to a page and then their
/// inverse, and every line of the page that no delete among the operations
/// names is still there under its own id (a replace is undone by a replace
/// on the same id; the inverse deletes only lines the operations inserted
/// or re-inserts). The conditions are those of the text half.
pub proof fn law_undo_keeps_undeleted_ids(
    page: Seq<LineModel>, ops: Seq<OpModel>, inv: Seq<OpModel>, n1: i64, n2: i64, id: Seq<char>,
)
    requires
        ids_well_formed(page),
        page_single_lines(page),
        fresh_ids(all_inserted(ops), page),
        inverts(page, ops, inv),
        spec_invert_move(page, ops) is None ==> {
            &&& ops_single_lines(ops)
            &&& deletes_hit(page, ops)
            &&& fresh_ids(all_inserted(ops) + all_inserted(inv), page)
        },
        has_id(page, id),
        never_deletes(ops, id),
    ensures
        texts(apply_all(apply_all(page, ops, n1), inv, n2)) == texts(page),
        has_id(apply_all(apply_all(page, ops, n1), inv, n2), id),
{
    law_undo_restores_the_text(page, ops, inv, n1, n2);
    law_ids_survive_all_but_their_delete(page, ops, n1, id);
    let i0 = choose|i: int| 0 <= i < page.len() && (#[trigger] page[i]).id == id;
    assert(page_ids(page)[i0] == id);
    assert(page_ids(page).contains(id));
    assert(never_deletes(inv, id)) by {
        match spec_invert_move(page, ops) {
            Some(shp) => {
                let inserted = ops.last()->Insert_lines;
                let dels = ops.drop_last();
                let n = dels.len();
                let ids = Seq::new(n, |k: int| dels[k]->Delete_id);
                let start = first_index(page, ids[0], 0)->Some_0;
                let tail = seq![
                    insert_shape(
                        if start + n < page.len() { page[start + n].id } else { end_anchor() },
                        Seq::new(n, |k: int| page[start + k].text),
                    ),
                ];
                let front = Seq::new(n, |k: int| OpShape::Delete { id: inserted[k].0 });
                assert(shp == front + tail);
                assert forall|k: int| 0 <= k < inv.len() && (#[trigger] inv[k]) is Delete implies inv[k]->Delete_id != id by {
                    assert(shape(inv[k]) == op_shapes(inv)[k]);
                    assert(op_shapes(inv)[k] == shp[k]);
                    if k < n {
                        assert(shp[k] == front[k]);
                        if inserted[k].0 == id {
                            assert(page[i0].id == inserted[k].0);
                        }
                    } else {
                        assert(shp[k] == tail[k - n]);
                        assert(shp[k] is Insert);
                    }
                }
            },
            None => {
                let raw = choose|raw: Seq<OpModel>| {
                    &&& op_shapes(raw) == flatten_rev(inverse_groups(page, ops))
                    &&& inv == raw.map_values(|op: OpModel| rebind_op(op, deleted_ids(ops), restored_ids(raw)))
                };
                let dl = deleted_ids(ops);
                let rl = restored_ids(raw);
                assert(inv =~= rebind_all(raw, dl, rl));
                lemma_run_facts(page, ops, raw);
                lemma_all_inserted_rebound(raw, dl, rl);
                lemma_groups_delete_inserted(page, ops);
                lemma_flatten_deletes_within(inverse_groups(page, ops), all_inserted(ops));
                let io = all_inserted(ops);
                let ir = all_inserted(inv);
                assert forall|k: int| 0 <= k < inv.len() && (#[trigger] inv[k]) is Delete implies inv[k]->Delete_id != id by {
                    assert(inv[k] == rebind_op(raw[k], dl, rl));
                    assert(raw[k] is Delete);
                    assert(shape(raw[k]) == op_shapes(raw)[k]);
                    let x = raw[k]->Delete_id;
                    assert(io.contains(x));
                    let qx = choose|q: int| 0 <= q < io.len() && io[q] == x;
                    assert((io + ir)[qx] == x);
                    lemma_first_pos_bounds(dl, x, 0);
                    match first_pos(dl, x, 0) {
                        Some(j) => if j < rl.len() {
                            assert(0 <= j);
                            assert(all_inserted(raw).contains(restored_ids(raw)[j]));
                            assert(ir == all_inserted(raw));
                            assert(ir.contains(rl[j]));
                            let q = choose|q: int| 0 <= q < ir.len() && ir[q] == rl[j];
                            assert((io + ir)[io.len() + q] == rl[j]);
                        },
                        None => {},
                    }
                }
            },
        }
    }
    law_ids_survive_all_but_their_delete(apply_all(page, ops, n1), inv, n2, id);
}

} // verus!
