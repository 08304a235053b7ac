//! Which picture protocol the terminal speaks, and how big its cells are:
//! the query (kitty graphics query, primary device attributes, cell size,
//! then a device status report so that some answer ends the exchange) and
//! the reading of whatever came back. Sending and waiting are the caller's.
use vstd::prelude::*;
use vstd::utf8::valid_utf8;
use crate::bytes::{find_b, find_byte, find_bytes, find_byte_from, sub_bytes, lemma_find_b_bounds, lemma_find_byte_bounds};

verus! {

/// What the terminal said.
#[derive(Debug, Default, Clone, PartialEq, Eq)]
pub struct Probe {
    pub kitty: bool,
    pub sixel: bool,
    /// Cell size in pixels: (width, height).
    pub cell: Option<(u16, u16)>,
    /// The device status report came back: the terminal is listening.
    pub answered: bool,
}

/// A picture protocol a terminal can speak.
#[derive(Clone, Copy, PartialEq, Eq, Debug, Structural)]
pub enum Protocol {
    Kitty,
    Sixel,
}

/// The protocol the answers point at, when they point at one: kitty's
/// graphics where the terminal has them, else sixel.
pub fn protocol(p: &Probe) -> (r: Option<Protocol>)
    ensures
        r == (if p.kitty {
            Some(Protocol::Kitty)
        } else if p.sixel {
            Some(Protocol::Sixel)
        } else {
            None
        }),
{
    if p.kitty {
        Some(Protocol::Kitty)
    } else if p.sixel {
        Some(Protocol::Sixel)
    } else {
        None
    }
}

/// `ESC [ 0 n`: the status report of a terminal that is fine.
pub open spec fn dsr_ok() -> Seq<u8> {
    seq![27u8, 91u8, 48u8, 110u8]
}

/// `ESC [ 3 n`: the status report of a terminal reporting a fault.
pub open spec fn dsr_fault() -> Seq<u8> {
    seq![27u8, 91u8, 51u8, 110u8]
}

/// `_Gi=31;OK`: the kitty graphics answer.
pub open spec fn kitty_ok() -> Seq<u8> {
    seq![95u8, 71u8, 105u8, 61u8, 51u8, 49u8, 59u8, 79u8, 75u8]
}

/// `ESC [ ?`: the start of a device attributes answer.
pub open spec fn da_start() -> Seq<u8> {
    seq![27u8, 91u8, 63u8]
}

/// `ESC [ 6 ;`: the start of a cell size answer.
pub open spec fn cell_start() -> Seq<u8> {
    seq![27u8, 91u8, 54u8, 59u8]
}

/// The query as text. Inside tmux it goes through a passthrough DCS (with
/// every escape doubled) so that the outer terminal answers.
pub open spec fn spec_query(in_tmux: bool) -> Seq<char> {
    let esc = if in_tmux { "\x1b\x1b"@ } else { "\x1b"@ };
    let start = if in_tmux { "\x1bPtmux;"@ } else { Seq::empty() };
    let end = if in_tmux { "\x1b\\"@ } else { Seq::empty() };
    start + esc + "_Gi=31,s=1,v=1,a=q,t=d,f=24;AAAA"@ + esc + "\\"@ + esc + "[c"@ + esc + "[16t"@
        + esc + "[5n"@ + end
}

/// Has the exchange ended? The status report is sent last by any terminal
/// that answers in order.
pub open spec fn spec_complete(resp: Seq<u8>) -> bool {
    find_b(resp, dsr_ok(), 0) is Some || find_b(resp, dsr_fault(), 0) is Some
}

pub open spec fn is_param_byte(b: u8) -> bool {
    (48 <= b <= 57) || b == 59
}

/// The first position at or after `k` that is not a digit or `;`.
pub open spec fn param_end(h: Seq<u8>, k: int) -> Option<int>
    decreases h.len() - k,
{
    if k < 0 || k >= h.len() {
        None
    } else if !is_param_byte(h[k]) {
        Some(k)
    } else {
        param_end(h, k + 1)
    }
}

/// `4` is one whole `;`-separated parameter of `h[start..end]`.
pub open spec fn has_param_4(h: Seq<u8>, start: int, end: int) -> bool {
    exists|j: int|
        start <= j < end && #[trigger] h[j] == 52 && (j == start || h[j - 1] == 59) && (j + 1 == end
            || h[j + 1] == 59)
}

/// Some device attributes answer from `i` on, read in order, lists
/// parameter 4 (sixel). A `CSI ?` whose parameters run to the end stops the
/// reading.
pub open spec fn sixel_from(h: Seq<u8>, i: int) -> bool
    decreases h.len() + 1 - i,
{
    match find_b(h, da_start(), i) {
        None => false,
        Some(at) => if at < i {
            false
        } else {
            match param_end(h, at + 3) {
                None => false,
                Some(end) => if end < at + 3 || end >= h.len() {
                    false
                } else {
                    (h[end] == 99 && has_param_4(h, at + 3, end)) || sixel_from(h, end + 1)
                },
            }
        },
    }
}

/// The value of a run of decimal digits.
pub open spec fn digits_value(d: Seq<u8>) -> int
    decreases d.len(),
{
    if d.len() == 0 {
        0
    } else {
        digits_value(d.drop_last()) * 10 + (d.last() - 48)
    }
}

pub open spec fn all_digits(d: Seq<u8>) -> bool {
    forall|i: int| 0 <= i < d.len() ==> 48 <= #[trigger] d[i] <= 57
}

/// `u16`'s reading of decimal text: an optional `+`, then one or more
/// digits, of value at most 65535.
pub open spec fn spec_parse_u16(f: Seq<u8>) -> Option<u16> {
    let d = if f.len() > 0 && f[0] == 43 { f.drop_first() } else { f };
    if d.len() == 0 || !all_digits(d) || digits_value(d) > 65535 {
        None
    } else {
        Some(digits_value(d) as u16)
    }
}

/// The first two `;`-separated fields of a cell size answer, height then
/// width, both positive.
pub open spec fn cell_fields(body: Seq<u8>) -> Option<(u16, u16)> {
    match find_byte(body, 59, 0) {
        None => None,
        Some(s1) => {
            let e1 = match find_byte(body, 59, s1 + 1) {
                Some(s2) => s2,
                None => body.len() as int,
            };
            match (spec_parse_u16(body.subrange(0, s1)), spec_parse_u16(body.subrange(s1 + 1, e1))) {
                (Some(hh), Some(ww)) => if ww > 0 && hh > 0 {
                    Some((ww, hh))
                } else {
                    None
                },
                _ => None,
            }
        },
    }
}

/// The cell size: `CSI 6 ; height ; width t`, read from the first such
/// answer up to the next `t`, when that text is valid UTF-8.
pub open spec fn spec_cell(h: Seq<u8>) -> Option<(u16, u16)> {
    match find_b(h, cell_start(), 0) {
        None => None,
        Some(at) => match find_byte(h, 116, at + 4) {
            None => None,
            Some(tp) => if tp < at + 4 || !valid_utf8(h.subrange(at + 4, tp)) {
                None
            } else {
                cell_fields(h.subrange(at + 4, tp))
            },
        },
    }
}

pub open spec fn spec_parse(h: Seq<u8>) -> Probe {
    Probe {
        kitty: find_b(h, kitty_ok(), 0) is Some,
        sixel: sixel_from(h, 0),
        cell: spec_cell(h),
        answered: spec_complete(h),
    }
}

/// The query bytes.
pub fn query_bytes(in_tmux: bool) -> (q: Vec<u8>)
    ensures
        q@ == vstd::utf8::encode_utf8(spec_query(in_tmux)),
{
    let esc = if in_tmux { "\x1b\x1b" } else { "\x1b" };
    let mut q = String::new();
    if in_tmux {
        q.append("\x1bPtmux;");
    }
    q.append(esc);
    q.append("_Gi=31,s=1,v=1,a=q,t=d,f=24;AAAA");
    q.append(esc);
    q.append("\\");
    q.append(esc);
    q.append("[c");
    q.append(esc);
    q.append("[16t");
    q.append(esc);
    q.append("[5n");
    if in_tmux {
        q.append("\x1b\\");
    }
    assert(q@ == spec_query(in_tmux)) by {
        if !in_tmux {
            assert(Seq::<char>::empty() + "\x1b"@ =~= "\x1b"@);
        }
    }
    q.as_str().as_bytes_vec()
}

/// Has the exchange ended?
pub fn complete(resp: &[u8]) -> (b: bool)
    ensures
        b == spec_complete(resp@),
{
    let ok: Vec<u8> = vec![27u8, 91u8, 48u8, 110u8];
    let fault: Vec<u8> = vec![27u8, 91u8, 51u8, 110u8];
    assert(ok@ =~= dsr_ok());
    assert(fault@ =~= dsr_fault());
    find_bytes(resp, ok.as_slice(), 0).is_some() || find_bytes(resp, fault.as_slice(), 0).is_some()
}

/// Does `std::str::from_utf8` accept these bytes? Stated as the UTF-8
/// well-formedness that vstd defines.
#[verifier::external_body]
fn utf8_valid(b: &[u8]) -> (r: bool)
    ensures
        r == valid_utf8(b@),
{
    std::str::from_utf8(b).is_ok()
}

/// The first position at or after `k` that is not a digit or `;`.
fn param_end_exec(h: &[u8], k: usize) -> (r: Option<usize>)
    ensures
        match r {
            Some(e) => param_end(h@, k as int) == Some(e as int),
            None => param_end(h@, k as int) is None,
        },
{
    let mut i = k;
    while i < h.len()
        invariant
            k <= i,
            param_end(h@, k as int) == param_end(h@, i as int),
        decreases h.len() - i,
    {
        let b = h[i];
        if !((48 <= b && b <= 57) || b == 59) {
            return Some(i);
        }
        i += 1;
    }
    None
}

proof fn lemma_param_end_bounds(h: Seq<u8>, k: int)
    ensures
        param_end(h, k) is Some ==> k <= param_end(h, k)->Some_0 < h.len(),
    decreases h.len() - k,
{
    if 0 <= k < h.len() && is_param_byte(h[k]) {
        lemma_param_end_bounds(h, k + 1);
    }
}

/// Is `4` one whole parameter of `h[start..end]`?
fn param_4(h: &[u8], start: usize, end: usize) -> (r: bool)
    requires
        start <= end <= h.len(),
    ensures
        r == has_param_4(h@, start as int, end as int),
{
    let mut j = start;
    while j < end
        invariant
            start <= j <= end <= h.len(),
            forall|x: int|
                start <= x < j ==> !(#[trigger] h@[x] == 52 && (x == start || h@[x - 1] == 59) && (x + 1
                    == end || h@[x + 1] == 59)),
        decreases end - j,
    {
        if h[j] == 52 && (j == start || h[j - 1] == 59) && (j + 1 == end || h[j + 1] == 59) {
            return true;
        }
        j += 1;
    }
    false
}

/// `u16`'s reading of decimal text.
fn parse_u16(f: &[u8]) -> (r: Option<u16>)
    ensures
        r == spec_parse_u16(f@),
{
    let start: usize = if f.len() > 0 && f[0] == 43 { 1 } else { 0 };
    let ghost d = if f@.len() > 0 && f@[0] == 43 { f@.drop_first() } else { f@ };
    assert(d =~= f@.skip(start as int));
    if start >= f.len() {
        return None;
    }
    let mut v: u32 = 0;
    let mut i = start;
    while i < f.len()
        invariant
            start <= i <= f.len(),
            start < f.len(),
            d =~= f@.skip(start as int),
            d == (if f@.len() > 0 && f@[0] == 43 { f@.drop_first() } else { f@ }),
            v == digits_value(f@.subrange(start as int, i as int)),
            v <= 65535,
            all_digits(f@.subrange(start as int, i as int)),
        decreases f.len() - i,
    {
        let b = f[i];
        assert(f@.subrange(start as int, i + 1).drop_last() =~= f@.subrange(start as int, i as int));
        if b < 48 || b > 57 {
            assert(d[i - start] == b);
            assert(!all_digits(d));
            return None;
        }
        let nv: u32 = v * 10 + (b as u32 - 48);
        if nv > 65535 {
            proof {
                assert(f@.subrange(start as int, i + 1) =~= f@.skip(start as int).subrange(0, i + 1 - start));
                lemma_digits_value_grows(f@.subrange(start as int, i + 1), f@.skip(start as int));
            }
            return None;
        }
        v = nv;
        i += 1;
    }
    assert(f@.subrange(start as int, f.len() as int) =~= d);
    Some(v as u16)
}

/// A longer run of digits is worth at least as much.
proof fn lemma_digits_value_grows(p: Seq<u8>, d: Seq<u8>)
    requires
        p.len() <= d.len(),
        p =~= d.subrange(0, p.len() as int),
    ensures
        all_digits(d) ==> digits_value(p) <= digits_value(d),
    decreases d.len(),
{
    if p.len() < d.len() && all_digits(d) {
        let e = d.drop_last();
        assert(p =~= e.subrange(0, p.len() as int));
        assert(all_digits(e)) by {
            assert forall|i: int| 0 <= i < e.len() implies 48 <= #[trigger] e[i] <= 57 by {
                assert(e[i] == d[i]);
            }
        }
        lemma_digits_value_grows(p, e);
        lemma_digits_value_nonneg(e);
        assert(48 <= d.last() <= 57) by {
            assert(d.last() == d[d.len() - 1]);
        }
    } else if p.len() == d.len() {
        assert(p =~= d);
    }
}

proof fn lemma_digits_value_nonneg(d: Seq<u8>)
    requires
        all_digits(d),
    ensures
        digits_value(d) >= 0,
    decreases d.len(),
{
    if d.len() > 0 {
        let e = d.drop_last();
        assert(all_digits(e)) by {
            assert forall|i: int| 0 <= i < e.len() implies 48 <= #[trigger] e[i] <= 57 by {
                assert(e[i] == d[i]);
            }
        }
        lemma_digits_value_nonneg(e);
        assert(d.last() == d[d.len() - 1]);
    }
}

/// The first two fields of a cell size answer.
fn read_cell_fields(body: &[u8]) -> (r: Option<(u16, u16)>)
    ensures
        r == cell_fields(body@),
{
    let first = find_byte_from(body, 59, 0);
    proof {
        lemma_find_byte_bounds(body@, 59, 0);
    }
    match first {
        None => None,
        Some(s1) => {
            assert(find_byte(body@, 59, 0) == Some(s1 as int));
            assert(s1 < body.len());
            proof {
                lemma_find_byte_bounds(body@, 59, s1 + 1);
            }
            let e1 = match find_byte_from(body, 59, s1 + 1) {
                Some(s2) => s2,
                None => body.len(),
            };
            let f0 = sub_bytes(body, 0, s1);
            let f1 = sub_bytes(body, s1 + 1, e1);
            match (parse_u16(f0.as_slice()), parse_u16(f1.as_slice())) {
                (Some(hh), Some(ww)) => if ww > 0 && hh > 0 {
                    Some((ww, hh))
                } else {
                    None
                },
                _ => None,
            }
        },
    }
}

/// Read the answers out of whatever came back (possibly nothing).
pub fn parse(resp: &[u8]) -> (p: Probe)
    ensures
        p == spec_parse(resp@),
{
    let kitty_pat: Vec<u8> = vec![95u8, 71u8, 105u8, 61u8, 51u8, 49u8, 59u8, 79u8, 75u8];
    let da_pat: Vec<u8> = vec![27u8, 91u8, 63u8];
    let cell_pat: Vec<u8> = vec![27u8, 91u8, 54u8, 59u8];
    assert(kitty_pat@ =~= kitty_ok());
    assert(da_pat@ =~= da_start());
    assert(cell_pat@ =~= cell_start());
    let kitty = find_bytes(resp, kitty_pat.as_slice(), 0).is_some();
    // device attributes: CSI ? <params> c, sixel when a parameter is 4
    let mut sixel = false;
    let mut i: usize = 0;
    while i <= resp.len()
        invariant
            sixel_from(resp@, 0) == (sixel || sixel_from(resp@, i as int)),
            da_pat@ == da_start(),
        ensures
            sixel_from(resp@, 0) == sixel,
        decreases resp.len() + 1 - i,
    {
        let found = find_bytes(resp, da_pat.as_slice(), i);
        proof {
            lemma_find_b_bounds(resp@, da_start(), i as int);
        }
        match found {
            None => {
                break;
            },
            Some(at) => {
                let start = at + 3;
                let pe = param_end_exec(resp, start);
                proof {
                    lemma_param_end_bounds(resp@, start as int);
                }
                match pe {
                    None => {
                        break;
                    },
                    Some(end) => {
                        if resp[end] == 99 && param_4(resp, start, end) {
                            sixel = true;
                        }
                        i = end + 1;
                    },
                }
            },
        }
    }
    // cell size: CSI 6 ; height ; width t
    let mut cell: Option<(u16, u16)> = None;
    let found = find_bytes(resp, cell_pat.as_slice(), 0);
    proof {
        lemma_find_b_bounds(resp@, cell_start(), 0);
    }
    if let Some(at) = found {
        assert(at + 4 <= resp.len());
        let start = at + 4;
        let tpos = find_byte_from(resp, 116, start);
        proof {
            lemma_find_byte_bounds(resp@, 116, start as int);
        }
        if let Some(tp) = tpos {
            let body = sub_bytes(resp, start, tp);
            if utf8_valid(body.as_slice()) {
                cell = read_cell_fields(body.as_slice());
            }
        }
    }
    let answered = complete(resp);
    Probe { kitty, sixel, cell, answered }
}

} // verus!
