//! Pure source-line outline planning.
//!
//! Outline depth is deliberately smaller than Unicode whitespace: only an
//! ASCII space, a tab, and U+3000 count, one character per level. Plans name
//! source-line ranges and never know about wrapped display rows or line IDs.
use vstd::prelude::*;
use vstd::string::*;

verus! {

/// An inclusive range of source lines.
#[derive(Clone, Copy, Debug, PartialEq, Eq, Structural)]
pub struct LineRange {
    pub start: usize,
    pub end: usize,
}

impl LineRange {
    pub fn new(start: usize, end: usize) -> (r: Self)
        ensures
            r.start == start,
            r.end == end,
    {
        Self { start, end }
    }

    pub open spec fn spec_len(self) -> int {
        self.end - self.start + 1
    }

    fn len(self) -> (n: usize)
        requires
            self.start <= self.end < usize::MAX,
        ensures
            n == self.spec_len(),
    {
        self.end - self.start + 1
    }
}

#[derive(Clone, Copy, Debug, PartialEq, Eq)]
pub enum Scope {
    Lines(LineRange),
    Block(usize),
    /// A block whose extent was frozen when the reader grabbed it (the
    /// sticky move mode). Its first line is the root. Indentation may have
    /// changed since the grab, so the extent is no longer re-derivable from
    /// the text: the reader picked up THESE lines and no others.
    Grabbed(LineRange),
}

#[derive(Clone, Copy, Debug, PartialEq, Eq)]
pub enum Direction {
    Left,
    Right,
    Up,
    Down,
}

/// Where moved source text is inserted in the original line ordering.
#[derive(Clone, Copy, Debug, PartialEq, Eq)]
pub enum Destination {
    Before(usize),
    End,
}

#[derive(Clone, Debug, PartialEq, Eq)]
pub enum Plan {
    Replace { range: LineRange, texts: Vec<String> },
    Move {
        range: LineRange,
        destination: Destination,
        /// Start of the moved range after applying the plan.
        destination_start: usize,
    },
}

/// The mathematical form of a [`Plan`]: replacement texts as character
/// sequences.
pub enum PlanModel {
    Replace { range: LineRange, texts: Seq<Seq<char>> },
    Move { range: LineRange, destination: Destination, destination_start: usize },
}

impl View for Plan {
    type V = PlanModel;

    open spec fn view(&self) -> PlanModel {
        match self {
            Plan::Replace { range, texts } => PlanModel::Replace {
                range: *range,
                texts: texts.deep_view(),
            },
            Plan::Move { range, destination, destination_start } => PlanModel::Move {
                range: *range,
                destination: *destination,
                destination_start: *destination_start,
            },
        }
    }
}

#[derive(Clone, Copy, Debug, PartialEq, Eq)]
pub enum PlanError {
    InvalidTarget,
    TitleProtected,
    CannotOutdent,
    Boundary,
    NotSibling,
}

/// The plan a call gives, as a model.
pub open spec fn plan_result_view(r: Result<Plan, PlanError>) -> Result<PlanModel, PlanError> {
    match r {
        Ok(p) => Ok(p@),
        Err(e) => Err(e),
    }
}

// ---------------------------------------------------------------------------
// The model
// ---------------------------------------------------------------------------

/// The three characters that count as one outline level each.
pub open spec fn is_indent_char(c: char) -> bool {
    c == ' ' || c == '\t' || c == '\u{3000}'
}

/// Number of supported indentation characters from position `i` on.
pub open spec fn depth_from(s: Seq<char>, i: int) -> nat
    decreases s.len() - i,
{
    if i < 0 || i >= s.len() || !is_indent_char(s[i]) {
        0
    } else {
        1 + depth_from(s, i + 1)
    }
}

/// Outline depth of a line: its run of leading indentation characters.
pub open spec fn spec_depth(s: Seq<char>) -> nat {
    depth_from(s, 0)
}

/// Depth of source line `k`.
pub open spec fn line_depth(ls: Seq<Seq<char>>, k: int) -> nat {
    spec_depth(ls[k])
}

/// The last line of the subtree rooted at `root`, scanning on from `e`.
pub open spec fn subtree_end_from(ls: Seq<Seq<char>>, root: int, e: int) -> int
    decreases ls.len() - e,
{
    if e >= root && e + 1 < ls.len() && line_depth(ls, e + 1) > line_depth(ls, root) {
        subtree_end_from(ls, root, e + 1)
    } else {
        e
    }
}

/// The block rooted at `root`: the root plus the maximal following run of
/// deeper lines.
pub open spec fn spec_subtree(ls: Seq<Seq<char>>, root: int) -> Result<LineRange, PlanError> {
    if root < 0 || root >= ls.len() {
        Err(PlanError::InvalidTarget)
    } else {
        Ok(LineRange { start: root as usize, end: subtree_end_from(ls, root, root) as usize })
    }
}

/// The nearest line above `c` (inclusive, scanning upward) that is
/// shallower than `depth`.
pub open spec fn shallower_at_or_above(ls: Seq<Seq<char>>, c: int, depth: nat) -> Option<int>
    decreases c + 1,
{
    if c < 0 {
        None
    } else if line_depth(ls, c) < depth {
        Some(c)
    } else {
        shallower_at_or_above(ls, c - 1, depth)
    }
}

/// The parent of `line`: the nearest line above it that is shallower.
pub open spec fn spec_parent(ls: Seq<Seq<char>>, line: int) -> Option<int> {
    shallower_at_or_above(ls, line - 1, line_depth(ls, line))
}

/// Walk up from `s` past the lines deeper than `depth` (stopping at line 0).
pub open spec fn walk_back(ls: Seq<Seq<char>>, s: int, depth: nat) -> int
    decreases s,
{
    if s > 0 && line_depth(ls, s) > depth {
        walk_back(ls, s - 1, depth)
    } else {
        s
    }
}

pub open spec fn spec_checked_range(ls: Seq<Seq<char>>, r: LineRange) -> Result<LineRange, PlanError> {
    if r.start > r.end || r.end >= ls.len() {
        Err(PlanError::InvalidTarget)
    } else {
        Ok(r)
    }
}

/// Indent: one ASCII space in front of every line.
pub open spec fn indented(ls: Seq<Seq<char>>, r: LineRange) -> Seq<Seq<char>> {
    Seq::new(r.spec_len() as nat, |i: int| seq![' '] + ls[r.start + i])
}

/// Outdent: the first character of every line removed.
pub open spec fn outdented(ls: Seq<Seq<char>>, r: LineRange) -> Seq<Seq<char>> {
    Seq::new(r.spec_len() as nat, |i: int| ls[r.start + i].drop_first())
}

pub open spec fn spec_horizontal(ls: Seq<Seq<char>>, r: LineRange, dir: Direction) -> Result<PlanModel, PlanError> {
    if dir == Direction::Right {
        Ok(PlanModel::Replace { range: r, texts: indented(ls, r) })
    } else if exists|k: int| r.start <= k <= r.end && line_depth(ls, k) == 0 {
        Err(PlanError::CannotOutdent)
    } else {
        Ok(PlanModel::Replace { range: r, texts: outdented(ls, r) })
    }
}

/// Where a destination "before line `after`" (or the end) lands.
pub open spec fn before_or_end(ls: Seq<Seq<char>>, after: int) -> Destination {
    if after < ls.len() {
        Destination::Before(after as usize)
    } else {
        Destination::End
    }
}

pub open spec fn spec_move_lines(ls: Seq<Seq<char>>, r: LineRange, dir: Direction) -> Result<PlanModel, PlanError> {
    if dir == Direction::Up {
        if r.start <= 1 {
            Err(PlanError::Boundary)
        } else {
            Ok(PlanModel::Move {
                range: r,
                destination: Destination::Before((r.start - 1) as usize),
                destination_start: (r.start - 1) as usize,
            })
        }
    } else if r.end + 1 >= ls.len() {
        Err(PlanError::Boundary)
    } else {
        Ok(PlanModel::Move {
            range: r,
            destination: before_or_end(ls, r.end + 2),
            destination_start: (r.start + 1) as usize,
        })
    }
}

/// Has a frozen extent stopped matching the block its root's indentation
/// describes?
pub open spec fn is_outdented(ls: Seq<Seq<char>>, root: int, r: LineRange, frozen: bool) -> bool {
    frozen && match spec_subtree(ls, root) {
        Ok(whole) => whole != r,
        Err(_) => false,
    }
}

/// Stepping `r` down over the extent `over`.
pub open spec fn move_down_over(ls: Seq<Seq<char>>, r: LineRange, over: LineRange) -> PlanModel {
    PlanModel::Move {
        range: r,
        destination: before_or_end(ls, over.end + 1),
        destination_start: (r.start + over.spec_len()) as usize,
    }
}

pub open spec fn spec_move_block(
    ls: Seq<Seq<char>>,
    root: int,
    r: LineRange,
    dir: Direction,
    frozen: bool,
) -> Result<PlanModel, PlanError> {
    let rd = line_depth(ls, root);
    let rp = spec_parent(ls, root);
    let out = is_outdented(ls, root, r, frozen);
    if dir == Direction::Up {
        if root <= 1 {
            Err(PlanError::Boundary)
        } else {
            let prev = root - 1;
            let sib = walk_back(ls, prev, rd);
            if sib > 0 && line_depth(ls, sib) == rd && spec_parent(ls, sib) == rp {
                Ok(PlanModel::Move {
                    range: r,
                    destination: Destination::Before(sib as usize),
                    destination_start: sib as usize,
                })
            } else if out && line_depth(ls, prev) > rd {
                Ok(PlanModel::Move {
                    range: r,
                    destination: Destination::Before(prev as usize),
                    destination_start: prev as usize,
                })
            } else {
                Err(PlanError::NotSibling)
            }
        }
    } else {
        let next = r.end + 1;
        if next >= ls.len() {
            Err(PlanError::Boundary)
        } else if line_depth(ls, next) < rd {
            Err(PlanError::NotSibling)
        } else if line_depth(ls, next) == rd || !out {
            if spec_parent(ls, next) != rp {
                Err(PlanError::NotSibling)
            } else {
                Ok(move_down_over(ls, r, spec_subtree(ls, next)->Ok_0))
            }
        } else {
            Ok(move_down_over(ls, r, LineRange { start: next as usize, end: next as usize }))
        }
    }
}

/// The whole planning rule.
pub open spec fn spec_plan(ls: Seq<Seq<char>>, scope: Scope, dir: Direction) -> Result<PlanModel, PlanError> {
    let target = match scope {
        Scope::Lines(r) => spec_checked_range(ls, r),
        Scope::Grabbed(r) => spec_checked_range(ls, r),
        Scope::Block(root) => spec_subtree(ls, root as int),
    };
    match target {
        Err(e) => Err(e),
        Ok(range) => if range.start == 0 {
            Err(PlanError::TitleProtected)
        } else if dir == Direction::Left || dir == Direction::Right {
            spec_horizontal(ls, range, dir)
        } else {
            match scope {
                Scope::Lines(_) => spec_move_lines(ls, range, dir),
                Scope::Block(root) => spec_move_block(ls, root as int, range, dir, false),
                Scope::Grabbed(g) => spec_move_block(ls, g.start as int, range, dir, true),
            }
        },
    }
}

/// The grab rule: the subtree, unless it is the title.
pub open spec fn spec_grab(ls: Seq<Seq<char>>, root: int) -> Result<LineRange, PlanError> {
    match spec_subtree(ls, root) {
        Ok(r) => if r.start == 0 {
            Err(PlanError::TitleProtected)
        } else {
            Ok(r)
        },
        Err(e) => Err(e),
    }
}

// ---------------------------------------------------------------------------
// Executable planning
// ---------------------------------------------------------------------------

/// Count exactly the supported leading indentation characters.
pub fn depth(line: &str) -> (n: usize)
    ensures
        n == spec_depth(line@),
{
    let len = line.unicode_len();
    let mut i: usize = 0;
    while i < len && is_indent(line.get_char(i))
        invariant
            i <= len,
            len == line@.len(),
            depth_from(line@, 0) == i + depth_from(line@, i as int),
        decreases len - i,
    {
        i += 1;
    }
    i
}

fn is_indent(c: char) -> (b: bool)
    ensures
        b == is_indent_char(c),
{
    c == ' ' || c == '\t' || c == '\u{3000}'
}

fn depth_at(lines: &[String], k: usize) -> (n: usize)
    requires
        k < lines.len(),
    ensures
        n == line_depth(lines.deep_view(), k as int),
{
    depth(lines[k].as_str())
}

/// The extent of the block rooted at `root`: what the sticky move mode
/// freezes when the reader grabs it, before any of its own edits.
pub fn grab(lines: &[String], root: usize) -> (r: Result<LineRange, PlanError>)
    ensures
        r == spec_grab(lines.deep_view(), root as int),
{
    let range = subtree(lines, root)?;
    if range.start == 0 {
        return Err(PlanError::TitleProtected);
    }
    Ok(range)
}

/// Plan one outline action against source lines.
pub fn plan(lines: &[String], scope: Scope, direction: Direction) -> (r: Result<Plan, PlanError>)
    ensures
        plan_result_view(r) == spec_plan(lines.deep_view(), scope, direction),
{
    let range = match scope {
        Scope::Lines(range) => checked_range(lines, range)?,
        Scope::Grabbed(range) => checked_range(lines, range)?,
        Scope::Block(root) => subtree(lines, root)?,
    };
    if range.start == 0 {
        return Err(PlanError::TitleProtected);
    }
    proof {
        if let Scope::Block(root) = scope {
            lemma_subtree_end_bounds(lines.deep_view(), root as int, root as int);
        }
    }
    match direction {
        Direction::Left | Direction::Right => horizontal(lines, range, direction),
        Direction::Up | Direction::Down => match scope {
            Scope::Lines(_) => move_lines(lines, range, direction),
            Scope::Block(root) => move_block(lines, root, range, direction, false),
            // The grabbed range says what moves; its first line still says
            // at what depth and under which parent it is looking for a
            // sibling. `frozen` is what allows the two rules that only make
            // sense for an extent that cannot grow.
            Scope::Grabbed(g) => move_block(lines, g.start, range, direction, true),
        },
    }
}

fn checked_range(lines: &[String], range: LineRange) -> (r: Result<LineRange, PlanError>)
    ensures
        r == spec_checked_range(lines.deep_view(), range),
{
    if range.start > range.end || range.end >= lines.len() {
        Err(PlanError::InvalidTarget)
    } else {
        Ok(range)
    }
}

/// The subtree end lies between the root and the last line, and every line
/// strictly after the root within it is deeper.
proof fn lemma_subtree_end_bounds(ls: Seq<Seq<char>>, root: int, e: int)
    requires
        0 <= root <= e < ls.len(),
    ensures
        e <= subtree_end_from(ls, root, e) < ls.len(),
    decreases ls.len() - e,
{
    if e + 1 < ls.len() && line_depth(ls, e + 1) > line_depth(ls, root) {
        lemma_subtree_end_bounds(ls, root, e + 1);
    }
}

pub fn subtree(lines: &[String], root: usize) -> (r: Result<LineRange, PlanError>)
    ensures
        r == spec_subtree(lines.deep_view(), root as int),
        r matches Ok(range) ==> range.start == root && root <= range.end < lines.len(),
{
    if root >= lines.len() {
        return Err(PlanError::InvalidTarget);
    }
    let ghost ls = lines.deep_view();
    let root_depth = depth_at(lines, root);
    let mut end = root;
    while end + 1 < lines.len() && depth_at(lines, end + 1) > root_depth
        invariant
            root <= end < lines.len(),
            ls == lines.deep_view(),
            root_depth == line_depth(ls, root as int),
            subtree_end_from(ls, root as int, root as int) == subtree_end_from(ls, root as int, end as int),
        decreases lines.len() - end,
    {
        end += 1;
    }
    Ok(LineRange::new(root, end))
}

fn horizontal(lines: &[String], range: LineRange, direction: Direction) -> (r: Result<Plan, PlanError>)
    requires
        range.start <= range.end < lines.len(),
        direction == Direction::Left || direction == Direction::Right,
    ensures
        plan_result_view(r) == spec_horizontal(lines.deep_view(), range, direction),
{
    let ghost ls = lines.deep_view();
    let mut texts: Vec<String> = Vec::new();
    let mut k = range.start;
    match direction {
        Direction::Right => {
            while k <= range.end
                invariant
                    range.start <= k <= range.end + 1,
                    range.end < lines.len(),
                    ls == lines.deep_view(),
                    texts.len() == k - range.start,
                    forall|i: int| 0 <= i < texts.len() ==> #[trigger] texts@[i]@ == seq![' '] + ls[range.start + i],
                decreases range.end + 1 - k,
            {
                let mut t = String::from_str(" ");
                proof { reveal_strlit(" "); }
                t.append(lines[k].as_str());
                texts.push(t);
                k += 1;
            }
            assert(texts.deep_view() =~= indented(ls, range));
            Ok(Plan::Replace { range, texts })
        },
        _ => {
            while k <= range.end
                invariant
                    range.start <= k <= range.end + 1,
                    range.end < lines.len(),
                    ls == lines.deep_view(),
                    texts.len() == k - range.start,
                    forall|i: int| 0 <= i < texts.len() ==> #[trigger] texts@[i]@ == ls[range.start + i].drop_first(),
                    forall|j: int| range.start <= j < k ==> line_depth(ls, j) > 0,
                    direction != Direction::Right,
                decreases range.end + 1 - k,
            {
                let line = lines[k].as_str();
                if depth_at(lines, k) == 0 {
                    assert(range.start <= k <= range.end && line_depth(ls, k as int) == 0);
                    return Err(PlanError::CannotOutdent);
                }
                let n = line.unicode_len();
                let rest = line.substring_char(1, n);
                texts.push(rest.to_owned());
                assert(texts@[texts.len() - 1]@ =~= ls[k as int].drop_first());
                k += 1;
            }
            assert(texts.deep_view() =~= outdented(ls, range));
            Ok(Plan::Replace { range, texts })
        },
    }
}

fn move_lines(lines: &[String], range: LineRange, direction: Direction) -> (r: Result<Plan, PlanError>)
    requires
        range.start <= range.end < lines.len(),
        direction == Direction::Up || direction == Direction::Down,
    ensures
        plan_result_view(r) == spec_move_lines(lines.deep_view(), range, direction),
{
    match direction {
        // Line 0 remains the title, so line 1 cannot move above it.
        Direction::Up => if range.start <= 1 {
            Err(PlanError::Boundary)
        } else {
            Ok(Plan::Move {
                range,
                destination: Destination::Before(range.start - 1),
                destination_start: range.start - 1,
            })
        },
        _ => if range.end + 1 >= lines.len() {
            Err(PlanError::Boundary)
        } else {
            Ok(Plan::Move {
                range,
                destination: if range.end + 2 < lines.len() {
                    Destination::Before(range.end + 2)
                } else {
                    Destination::End
                },
                // Only the one adjacent source line crosses the target range.
                destination_start: range.start + 1,
            })
        },
    }
}

fn parent(lines: &[String], line: usize) -> (r: Option<usize>)
    requires
        line < lines.len(),
    ensures
        match r {
            Some(p) => spec_parent(lines.deep_view(), line as int) == Some(p as int),
            None => spec_parent(lines.deep_view(), line as int) is None,
        },
{
    let ghost ls = lines.deep_view();
    let child_depth = depth_at(lines, line);
    let mut c = line;
    while c > 0
        invariant
            c <= line < lines.len(),
            ls == lines.deep_view(),
            child_depth == line_depth(ls, line as int),
            spec_parent(ls, line as int) == shallower_at_or_above(ls, c - 1, child_depth as nat),
        decreases c,
    {
        if depth_at(lines, c - 1) < child_depth {
            return Some(c - 1);
        }
        c -= 1;
    }
    None
}

fn same_parent(a: Option<usize>, b: Option<usize>) -> (r: bool)
    ensures
        r == (a == b),
{
    match (a, b) {
        (Some(x), Some(y)) => x == y,
        (None, None) => true,
        _ => false,
    }
}

/// `frozen` marks a grabbed extent, which cannot grow when its indentation
/// changes. Only such a block, and only once an outdent has left it smaller
/// than its indentation says, can have lines below it that READ as its own
/// children — and only then does one of those lines count as a step. In
/// every other case a grabbed block moves exactly as a recomputed one.
fn move_block(
    lines: &[String],
    root: usize,
    range: LineRange,
    direction: Direction,
    frozen: bool,
) -> (r: Result<Plan, PlanError>)
    requires
        range.start <= range.end < lines.len(),
        root == range.start,
        direction == Direction::Up || direction == Direction::Down,
    ensures
        plan_result_view(r) == spec_move_block(lines.deep_view(), root as int, range, direction, frozen),
{
    let ghost ls = lines.deep_view();
    let root_depth = depth_at(lines, root);
    let root_parent = parent(lines, root);
    let outdented = frozen && match subtree(lines, root) {
        Ok(whole) => whole != range,
        Err(_) => false,
    };
    assert(outdented == is_outdented(ls, root as int, range, frozen));
    match direction {
        Direction::Up => {
            if root <= 1 {
                return Err(PlanError::Boundary);
            }
            let prev = root - 1;
            // The ordinary case: step over the previous sibling's whole
            // subtree, found by walking back past the lines under it.
            let mut sibling = prev;
            while sibling > 0 && depth_at(lines, sibling) > root_depth
                invariant
                    sibling <= prev < root < lines.len(),
                    ls == lines.deep_view(),
                    root_depth == line_depth(ls, root as int),
                    walk_back(ls, prev as int, root_depth as nat) == walk_back(ls, sibling as int, root_depth as nat),
                decreases sibling,
            {
                sibling -= 1;
            }
            if sibling > 0 && depth_at(lines, sibling) == root_depth
                && same_parent(parent(lines, sibling), root_parent) {
                return Ok(Plan::Move {
                    range,
                    destination: Destination::Before(sibling),
                    destination_start: sibling,
                });
            }
            // Still no sibling. A deeper line above belongs to whatever is
            // above IT, so a grabbed extent that has been outdented past
            // its old parent can only step back one line at a time — the
            // way it stepped forward.
            if outdented && depth_at(lines, prev) > root_depth {
                return Ok(Plan::Move {
                    range,
                    destination: Destination::Before(prev),
                    destination_start: prev,
                });
            }
            Err(PlanError::NotSibling)
        },
        _ => {
            let next = range.end + 1;
            if next >= lines.len() {
                return Err(PlanError::Boundary);
            }
            let next_depth = depth_at(lines, next);
            // Shallower means the parent ends here: there is no next
            // sibling, and `Left` is how a block leaves its parent.
            if next_depth < root_depth {
                return Err(PlanError::NotSibling);
            }
            let over = if next_depth == root_depth || !outdented {
                // The ordinary case: step over one whole sibling subtree.
                if !same_parent(parent(lines, next), root_parent) {
                    return Err(PlanError::NotSibling);
                }
                match subtree(lines, next) {
                    Ok(o) => o,
                    Err(e) => return Err(e),
                }
            } else {
                // Deeper: a grabbed extent whose outdent left the line
                // below reading as its own child. One LINE is the step.
                LineRange::new(next, next)
            };
            Ok(Plan::Move {
                range,
                destination: if over.end + 1 < lines.len() {
                    Destination::Before(over.end + 1)
                } else {
                    Destination::End
                },
                destination_start: range.start + over.len(),
            })
        },
    }
}

// ---------------------------------------------------------------------------
// Laws
// ---------------------------------------------------------------------------

/// What applying a move does to the page: pull the range out and splice
/// it back in so that it starts at `ds`.
pub open spec fn spec_apply_move(ls: Seq<Seq<char>>, r: LineRange, ds: int) -> Seq<Seq<char>> {
    let block = ls.subrange(r.start as int, r.end + 1);
    let rest = ls.take(r.start as int) + ls.skip(r.end + 1);
    rest.take(ds) + block + rest.skip(ds)
}

/// A move's `destination` (a place in the original ordering) and its
/// `destination_start` (where the block starts afterwards) name the same
/// place.
pub open spec fn destination_agrees(ls: Seq<Seq<char>>, r: LineRange, dest: Destination, ds: int) -> bool {
    match dest {
        Destination::Before(k) => (k <= r.start && ds == k) || (k > r.end && ds == k - r.spec_len()),
        Destination::End => ds == ls.len() - r.spec_len(),
    }
}

proof fn lemma_walk_back_bounds(ls: Seq<Seq<char>>, s: int, d: nat)
    requires
        0 <= s,
    ensures
        0 <= walk_back(ls, s, d) <= s,
    decreases s,
{
    if s > 0 && line_depth(ls, s) > d {
        lemma_walk_back_bounds(ls, s - 1, d);
    }
}

/// Every move the planner proposes stays below the title, fits in the page,
/// and says the same place twice over.
pub proof fn law_move_plans_fit_below_the_title(ls: Seq<Seq<char>>, scope: Scope, dir: Direction)
    requires
        ls.len() <= usize::MAX,
        spec_plan(ls, scope, dir) is Ok,
        spec_plan(ls, scope, dir)->Ok_0 is Move,
    ensures
        ({
            let p = spec_plan(ls, scope, dir)->Ok_0;
            let r = p->Move_range;
            let ds = p->Move_destination_start as int;
            &&& 1 <= r.start <= r.end < ls.len()
            &&& 1 <= ds
            &&& ds + r.spec_len() <= ls.len()
            &&& destination_agrees(ls, r, p->Move_destination, ds)
        }),
{
    if let Scope::Block(root) = scope {
        if 0 <= root < ls.len() {
            lemma_subtree_end_bounds(ls, root as int, root as int);
        }
    }
    let target = match scope {
        Scope::Lines(r) => spec_checked_range(ls, r),
        Scope::Grabbed(r) => spec_checked_range(ls, r),
        Scope::Block(root) => spec_subtree(ls, root as int),
    };
    assert(target is Ok);
    let range = target->Ok_0;
    assert(range.start >= 1 && range.start <= range.end && range.end < ls.len());
    assert(dir == Direction::Up || dir == Direction::Down);
    match scope {
        Scope::Lines(_) => {
            assert(spec_plan(ls, scope, dir) == spec_move_lines(ls, range, dir));
        },
        Scope::Block(root) => {
            assert(spec_plan(ls, scope, dir) == spec_move_block(ls, root as int, range, dir, false));
            lemma_move_block_fits(ls, root as int, range, dir, false);
        },
        Scope::Grabbed(g) => {
            assert(spec_plan(ls, scope, dir) == spec_move_block(ls, g.start as int, range, dir, true));
            lemma_move_block_fits(ls, g.start as int, range, dir, true);
        },
    }
}

proof fn lemma_move_block_fits(ls: Seq<Seq<char>>, root: int, range: LineRange, dir: Direction, frozen: bool)
    requires
        ls.len() <= usize::MAX,
        1 <= range.start <= range.end < ls.len(),
        root == range.start,
        dir == Direction::Up || dir == Direction::Down,
        spec_move_block(ls, root, range, dir, frozen) is Ok,
    ensures
        ({
            let p = spec_move_block(ls, root, range, dir, frozen)->Ok_0;
            let ds = p->Move_destination_start as int;
            &&& p is Move
            &&& p->Move_range == range
            &&& 1 <= ds
            &&& ds + range.spec_len() <= ls.len()
            &&& destination_agrees(ls, range, p->Move_destination, ds)
        }),
{
    if dir == Direction::Up {
        lemma_walk_back_bounds(ls, root - 1, line_depth(ls, root));
    } else {
        let next = range.end + 1;
        lemma_subtree_end_bounds(ls, next, next);
    }
}

/// Applying a move that fits below the title keeps every line (the same
/// lines, rearranged), keeps the title in place, and keeps the moved block
/// whole at its new start.
pub proof fn law_applied_move_keeps_the_page_whole(ls: Seq<Seq<char>>, r: LineRange, ds: int)
    requires
        1 <= r.start <= r.end < ls.len(),
        1 <= ds,
        ds + r.spec_len() <= ls.len(),
    ensures
        spec_apply_move(ls, r, ds).len() == ls.len(),
        spec_apply_move(ls, r, ds)[0] == ls[0],
        spec_apply_move(ls, r, ds).subrange(ds, ds + r.spec_len()) == ls.subrange(r.start as int, r.end + 1),
        spec_apply_move(ls, r, ds).to_multiset() == ls.to_multiset(),
{
    broadcast use vstd::multiset::group_multiset_axioms;
    let block = ls.subrange(r.start as int, r.end + 1);
    let rest = ls.take(r.start as int) + ls.skip(r.end + 1);
    let out = spec_apply_move(ls, r, ds);
    assert(out.subrange(ds, ds + r.spec_len()) =~= block);
    let t = rest.take(ds);
    let u = rest.skip(ds);
    let a = ls.take(r.start as int);
    let c = ls.skip(r.end + 1);
    assert(out == t + block + u);
    vstd::seq_lib::lemma_multiset_commutative(t + block, u);
    vstd::seq_lib::lemma_multiset_commutative(t, block);
    vstd::seq_lib::lemma_multiset_commutative(t, u);
    assert(t + u =~= rest);
    vstd::seq_lib::lemma_multiset_commutative(a, c);
    vstd::seq_lib::lemma_multiset_commutative(a, block);
    vstd::seq_lib::lemma_multiset_commutative(a + block, c);
    assert(a + block + c =~= ls);
    assert forall|x: Seq<char>| out.to_multiset().count(x) == ls.to_multiset().count(x) by {
        assert(out.to_multiset().count(x) == t.to_multiset().count(x) + block.to_multiset().count(x) + u.to_multiset().count(x));
        assert(rest.to_multiset().count(x) == t.to_multiset().count(x) + u.to_multiset().count(x));
        assert(rest.to_multiset().count(x) == a.to_multiset().count(x) + c.to_multiset().count(x));
        assert(ls.to_multiset().count(x) == a.to_multiset().count(x) + block.to_multiset().count(x) + c.to_multiset().count(x));
    }
    assert(out.to_multiset() =~= ls.to_multiset());
}

/// A block grabbed and not edited since is no special case: it moves up and
/// down exactly as the block recomputed from its root does.
pub proof fn law_fresh_grab_moves_like_its_block(ls: Seq<Seq<char>>, root: int, dir: Direction)
    requires
        0 <= root < ls.len() <= usize::MAX,
        dir == Direction::Up || dir == Direction::Down,
    ensures
        spec_plan(ls, Scope::Grabbed(spec_subtree(ls, root)->Ok_0), dir)
            == spec_plan(ls, Scope::Block(root as usize), dir),
{
    lemma_subtree_end_bounds(ls, root, root);
    let r = spec_subtree(ls, root)->Ok_0;
    assert(r.start as int == root);
    assert(spec_checked_range(ls, r) == spec_subtree(ls, root));
    assert(!is_outdented(ls, root, r, true));
    assert(!is_outdented(ls, root, r, false));
    assert(spec_move_block(ls, root, r, dir, true) == spec_move_block(ls, root, r, dir, false));
}

} // verus!
