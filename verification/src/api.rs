//! The page model the editor works on: lines with their Cosense ids, and
//! the line-id based edit operations the server accepts.
use vstd::prelude::*;
use crate::text::{string_of, to_hex, hex_fixed, hex_digit, concat_str, copy_str, split_str, split_on};
use crate::clock::{now_secs, random_u64};

verus! {

/// One line of a page.
#[derive(Clone, Debug, PartialEq, Eq)]
pub struct PageLine {
    pub id: String,
    pub text: String,
    pub user_id: String,
    pub created: i64,
    pub updated: i64,
}

/// A page line as values.
pub struct LineModel {
    pub id: Seq<char>,
    pub text: Seq<char>,
    pub user_id: Seq<char>,
    pub created: i64,
    pub updated: i64,
}

impl View for PageLine {
    type V = LineModel;

    open spec fn view(&self) -> LineModel {
        LineModel {
            id: self.id@,
            text: self.text@,
            user_id: self.user_id@,
            created: self.created,
            updated: self.updated,
        }
    }
}

/// One edit operation, addressed by line id.
#[derive(Clone, Debug, PartialEq, Eq)]
pub enum EditOp {
    /// New lines `(id, text)` inserted before the line `anchor`, or at the
    /// end for the anchor `_end`.
    Insert { anchor: String, lines: Vec<(String, String)> },
    /// The text of line `id` replaced; the id is kept.
    Replace { id: String, text: String },
    /// Line `id` removed.
    Delete { id: String },
}

/// An edit operation as values.
pub enum OpModel {
    Insert { anchor: Seq<char>, lines: Seq<(Seq<char>, Seq<char>)> },
    Replace { id: Seq<char>, text: Seq<char> },
    Delete { id: Seq<char> },
}

pub open spec fn pair_view(p: (String, String)) -> (Seq<char>, Seq<char>) {
    (p.0@, p.1@)
}

impl View for EditOp {
    type V = OpModel;

    open spec fn view(&self) -> OpModel {
        match self {
            EditOp::Insert { anchor, lines } => OpModel::Insert {
                anchor: anchor@,
                lines: lines@.map_values(|p: (String, String)| pair_view(p)),
            },
            EditOp::Replace { id, text } => OpModel::Replace { id: id@, text: text@ },
            EditOp::Delete { id } => OpModel::Delete { id: id@ },
        }
    }
}

/// The anchor that means "after the last line".
pub open spec fn end_anchor() -> Seq<char> {
    seq!['_', 'e', 'n', 'd']
}

/// The `_end` anchor as a string.
pub fn end_anchor_string() -> (s: String)
    ensures
        s@ == end_anchor(),
{
    let v: Vec<char> = vec!['_', 'e', 'n', 'd'];
    assert(v@ =~= end_anchor());
    string_of(v.as_slice())
}

/// A line id as Cosense writes them: 24 lowercase hex digits.
pub open spec fn is_line_id(id: Seq<char>) -> bool {
    id.len() == 24 && forall|i: int| 0 <= i < 24 ==> is_hex_char(#[trigger] id[i])
}

pub open spec fn is_hex_char(c: char) -> bool {
    ('0' <= c <= '9') || ('a' <= c <= 'f')
}

proof fn lemma_hex_fixed_is_hex(v: nat, width: nat)
    ensures
        hex_fixed(v, width).len() == width,
        forall|i: int| 0 <= i < width ==> is_hex_char(#[trigger] hex_fixed(v, width)[i]),
    decreases width,
{
    if width > 0 {
        lemma_hex_fixed_is_hex(v / 16, (width - 1) as nat);
        let d = (v % 16) as int;
        assert(is_hex_char(hex_digit(d)));
    }
}

/// The id of a line created at `secs` with random part `rnd`: the time in
/// eight hex digits, then sixteen hex digits of the random part.
pub fn line_id(secs: i64, rnd: u64) -> (id: String)
    ensures
        id@ == hex_fixed(secs as u64 as nat, 8) + hex_fixed(rnd as nat, 16),
        is_line_id(id@),
{
    let t = to_hex(secs as u64, 8);
    let r = to_hex(rnd, 16);
    let id = concat_str(t.as_str(), r.as_str());
    proof {
        lemma_hex_fixed_is_hex(secs as u64 as nat, 8);
        lemma_hex_fixed_is_hex(rnd as nat, 16);
        assert forall|i: int| 0 <= i < 24 implies is_hex_char(#[trigger] id@[i]) by {
            if i >= 8 {
                assert(id@[i] == hex_fixed(rnd as nat, 16)[i - 8]);
            }
        }
    }
    id
}

impl EditOp {
    /// An insert of `text`'s lines before `anchor`, each line under a fresh
    /// id (the time it was made and a random part).
    pub fn insert(anchor: &str, text: &str) -> (op: EditOp)
        ensures
            op@ is Insert,
            op@->Insert_anchor == anchor@,
            op@->Insert_lines.len() == split_on(text@, '\n').len(),
            forall|i: int| 0 <= i < op@->Insert_lines.len() ==> {
                &&& (#[trigger] op@->Insert_lines[i]).1 == split_on(text@, '\n')[i]
                &&& is_line_id(op@->Insert_lines[i].0)
            },
    {
        let texts = split_str(text, '\n');
        let now = now_secs();
        let mut lines: Vec<(String, String)> = Vec::new();
        let mut k: usize = 0;
        while k < texts.len()
            invariant
                k <= texts.len(),
                texts.deep_view() == split_on(text@, '\n'),
                lines.len() == k,
                forall|i: int| 0 <= i < k ==> {
                    &&& (#[trigger] lines@[i]).1@ == texts.deep_view()[i]
                    &&& is_line_id(lines@[i].0@)
                },
            decreases texts.len() - k,
        {
            let id = line_id(now, random_u64());
            let t = copy_str(texts[k].as_str());
            lines.push((id, t));
            k += 1;
        }
        let op = EditOp::Insert { anchor: copy_str(anchor), lines };
        assert forall|i: int| 0 <= i < op@->Insert_lines.len() implies {
            &&& (#[trigger] op@->Insert_lines[i]).1 == split_on(text@, '\n')[i]
            &&& is_line_id(op@->Insert_lines[i].0)
        } by {
            assert(op@->Insert_lines[i] == pair_view(lines@[i]));
        }
        op
    }
}

/// One page of a project as the list endpoint reports it.
#[derive(Clone, Debug, Default, PartialEq, Eq)]
pub struct PageSummary {
    pub id: String,
    pub title: String,
    pub image: Option<String>,
    pub descriptions: Vec<String>,
    pub updated: i64,
    pub created: i64,
    pub accessed: i64,
    pub views: i64,
    pub linked: i64,
}

/// One full-text search hit.
#[derive(Clone, Debug, Default, PartialEq, Eq)]
pub struct SearchResult {
    pub id: String,
    pub title: String,
    pub image: Option<String>,
    pub words: Vec<String>,
    pub lines: Vec<String>,
    pub updated: i64,
    pub created: i64,
    pub views: i64,
    pub linked: i64,
}

} // verus!
