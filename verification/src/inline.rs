//! Inline notation: brackets, formulas, and the pictures a line embeds —
//! Gyazo permalinks, image URLs, and Cosense uploads.
use vstd::prelude::*;
use vstd::utf8::{encode_utf8, is_char_boundary};
use crate::text::{
    chars_of, string_of, spec_trim, trim, has_prefix, has_suffix, find_from,
    find_chars, occurs_at_exec, unicode_whitespace, is_whitespace, ascii_lower_seq, to_ascii_lower,
    contains_seq, lemma_find_from_bounds, str_eq,
};

verus! {

// ---------------------------------------------------------------------------
// Brackets
// ---------------------------------------------------------------------------

/// A position, as an index.
pub open spec fn as_index(o: Option<int>) -> Option<usize> {
    match o {
        Some(i) => Some(i as usize),
        None => None,
    }
}

/// Scanning bytes from `k` at bracket depth `depth`: the position of the
/// `]` that brings the depth back to zero (`Some(Some(i))`), none before
/// the end (`Some(None)`), or a `]` with nothing open (`None`).
pub open spec fn bracket_from(b: Seq<u8>, k: int, depth: int) -> Option<Option<int>>
    decreases b.len() - k,
{
    if k < 0 || k >= b.len() {
        Some(None)
    } else if b[k] == 91 {
        bracket_from(b, k + 1, depth + 1)
    } else if b[k] == 93 {
        if depth <= 0 {
            None
        } else if depth == 1 {
            Some(Some(k))
        } else {
            bracket_from(b, k + 1, depth - 1)
        }
    } else {
        bracket_from(b, k + 1, depth)
    }
}

proof fn lemma_bracket_walk_inside(b: Seq<u8>, k: int, depth: int)
    requires
        depth >= 1,
    ensures
        bracket_from(b, k, depth) is Some,
    decreases b.len() - k,
{
    if 0 <= k < b.len() {
        if b[k] == 91 {
            lemma_bracket_walk_inside(b, k + 1, depth + 1);
        } else if b[k] == 93 {
            if depth > 1 {
                lemma_bracket_walk_inside(b, k + 1, depth - 1);
            }
        } else {
            lemma_bracket_walk_inside(b, k + 1, depth);
        }
    }
}

/// A scan that starts on a `[` never meets a `]` with nothing open: it
/// either finds the closing bracket or runs off the end.
pub proof fn lemma_open_bracket_walk_succeeds(b: Seq<u8>, open: int)
    requires
        0 <= open < b.len(),
        b[open] == 91,
    ensures
        bracket_from(b, open, 0) is Some,
{
    lemma_bracket_walk_inside(b, open + 1, 1);
}

/// Byte index of the `]` that closes the `[` at `open`, counting nesting:
/// `[* [page]]` closes at its last bracket, not its first. The scan must
/// not meet a `]` with nothing open.
pub fn matching_bracket(s: &str, open: usize) -> (r: Option<usize>)
    requires
        open <= encode_utf8(s@).len(),
        is_char_boundary(encode_utf8(s@), open as int),
        (open < encode_utf8(s@).len() && encode_utf8(s@)[open as int] == 91)
            || bracket_from(encode_utf8(s@), open as int, 0) is Some,
    ensures
        bracket_from(encode_utf8(s@), open as int, 0) is Some,
        r == as_index(bracket_from(encode_utf8(s@), open as int, 0)->Some_0),
{
    let b = s.as_bytes();
    proof {
        if open < b@.len() && b@[open as int] == 91 {
            lemma_open_bracket_walk_succeeds(b@, open as int);
        }
    }
    let mut depth: usize = 0;
    let mut k = open;
    while k < b.len()
        invariant
            open <= k <= b.len(),
            b@ == encode_utf8(s@),
            depth <= k - open,
            bracket_from(b@, open as int, 0) is Some,
            bracket_from(b@, open as int, 0) == bracket_from(b@, k as int, depth as int),
        decreases b.len() - k,
    {
        if b[k] == 91 {
            depth += 1;
        } else if b[k] == 93 {
            if depth == 1 {
                return Some(k);
            }
            depth -= 1;
        }
        k += 1;
    }
    None
}

/// The same scan over characters, from a `[` at `o`.
pub open spec fn close_from(s: Seq<char>, k: int, depth: int) -> Option<int>
    decreases s.len() - k,
{
    if k < 0 || k >= s.len() {
        None
    } else if s[k] == '[' {
        close_from(s, k + 1, depth + 1)
    } else if s[k] == ']' {
        if depth <= 1 {
            Some(k)
        } else {
            close_from(s, k + 1, depth - 1)
        }
    } else {
        close_from(s, k + 1, depth)
    }
}

pub(crate) proof fn lemma_close_from(s: Seq<char>, k: int, depth: int)
    requires
        0 <= k <= s.len(),
    ensures
        close_from(s, k, depth) is Some ==> k <= close_from(s, k, depth)->Some_0 < s.len(),
    decreases s.len() - k,
{
    if k < s.len() && !(s[k] == ']' && depth <= 1) {
        if s[k] == '[' {
            lemma_close_from(s, k + 1, depth + 1);
        } else if s[k] == ']' {
            lemma_close_from(s, k + 1, depth - 1);
        } else {
            lemma_close_from(s, k + 1, depth);
        }
    }
}

pub(crate) fn close_at(cs: &[char], o: usize) -> (r: Option<usize>)
    requires
        o < cs.len(),
        cs@[o as int] == '[',
    ensures
        r == as_index(close_from(cs@, o + 1, 1)),
        r is Some ==> o < r->Some_0 < cs.len(),
{
    let mut depth: usize = 1;
    let mut k = o + 1;
    proof {
        lemma_close_from(cs@, o + 1, 1);
    }
    while k < cs.len()
        invariant
            o < k <= cs.len(),
            1 <= depth <= k - o,
            close_from(cs@, o + 1, 1) == close_from(cs@, k as int, depth as int),
        decreases cs.len() - k,
    {
        if cs[k] == '[' {
            depth += 1;
        } else if cs[k] == ']' {
            if depth <= 1 {
                return Some(k);
            }
            depth -= 1;
        }
        k += 1;
    }
    None
}

/// The first position at or after `k` holding `c`.
pub open spec fn find_char(s: Seq<char>, c: char, k: int) -> Option<int>
    decreases s.len() - k,
{
    if k < 0 || k >= s.len() {
        None
    } else if s[k] == c {
        Some(k)
    } else {
        find_char(s, c, k + 1)
    }
}

pub(crate) proof fn lemma_find_char(s: Seq<char>, c: char, k: int)
    requires
        0 <= k,
    ensures
        find_char(s, c, k) is Some ==> k <= find_char(s, c, k)->Some_0 < s.len() && s[find_char(
            s,
            c,
            k,
        )->Some_0] == c,
    decreases s.len() - k,
{
    if k < s.len() && s[k] != c {
        lemma_find_char(s, c, k + 1);
    }
}

pub(crate) fn find_char_exec(cs: &[char], c: char, from: usize) -> (r: Option<usize>)
    ensures
        r == as_index(find_char(cs@, c, from as int)),
        r is Some ==> from <= r->Some_0 < cs.len() && cs@[r->Some_0 as int] == c,
{
    let mut k = from;
    while k < cs.len()
        invariant
            from <= k,
            find_char(cs@, c, from as int) == find_char(cs@, c, k as int),
        decreases cs.len() - k,
    {
        if cs[k] == c {
            return Some(k);
        }
        k += 1;
    }
    None
}

/// What a bracket scan of a line finds, left to right: backtick-quoted
/// spans are text about notation and are skipped (an unclosed backtick
/// quotes the rest of the line); an unclosed bracket ends the scan.
/// `pick` says what each bracket's inside yields.
pub open spec fn scan_brackets(s: Seq<char>, pick: spec_fn(Seq<char>) -> Option<Seq<char>>) -> Seq<Seq<char>>
    decreases s.len(),
{
    let tick = find_char(s, '`', 0);
    let open = find_char(s, '[', 0);
    if open is None {
        Seq::empty()
    } else if tick is Some && tick->Some_0 < open->Some_0 {
        match find_char(s, '`', tick->Some_0 + 1) {
            Some(c) => if c + 1 <= s.len() && c >= 0 {
                scan_brackets(s.skip(c + 1), pick)
            } else {
                Seq::empty()
            },
            None => Seq::empty(),
        }
    } else {
        let o = open->Some_0;
        match close_from(s, o + 1, 1) {
            None => Seq::empty(),
            Some(e) => if e < o || e >= s.len() || o < 0 {
                Seq::empty()
            } else {
                let here = match pick(s.subrange(o + 1, e)) {
                    Some(x) => seq![x],
                    None => Seq::empty(),
                };
                here + scan_brackets(s.skip(e + 1), pick)
            },
        }
    }
}

/// A formula bracket `[$ … ]` yields its LaTeX, trimmed.
pub open spec fn formula_of(inner: Seq<char>) -> Option<Seq<char>> {
    if inner.len() > 0 && inner[0] == '$' {
        Some(spec_trim(inner.skip(1)))
    } else {
        None
    }
}

/// Every `[$ … ]` formula on a line, left to right, as the renderer reads
/// them.
pub fn inline_formulas(line: &str) -> (out: Vec<String>)
    ensures
        out.deep_view() == scan_brackets(line@, |inner: Seq<char>| formula_of(inner)),
{
    let cs = chars_of(line);
    let ghost pick = |inner: Seq<char>| formula_of(inner);
    let mut out: Vec<String> = Vec::new();
    let mut at: usize = 0;
    let mut done = false;
    assert(line@.skip(0) =~= line@);
    assert(out.deep_view() + scan_brackets(line@, pick) =~= scan_brackets(line@, pick));
    while !done
        invariant
            at <= cs.len(),
            cs@ == line@,
            pick == (|inner: Seq<char>| formula_of(inner)),
            !done ==> scan_brackets(line@, pick) == out.deep_view() + scan_brackets(line@.skip(at as int), pick),
            done ==> scan_brackets(line@, pick) == out.deep_view(),
        decreases cs.len() - at, (if done { 0int } else { 1int }),
    {
        let rest = &cs.as_slice()[at..cs.len()];
        let ghost r = line@.skip(at as int);
        let ghost before = out.deep_view();
        assert(rest@ =~= r);
        let tick = find_char_exec(rest, '`', 0);
        let open = find_char_exec(rest, '[', 0);
        proof {
            lemma_find_char(r, '`', 0);
            lemma_find_char(r, '[', 0);
        }
        match open {
            None => {
                assert(scan_brackets(r, pick) == Seq::<Seq<char>>::empty());
                assert(before + Seq::<Seq<char>>::empty() =~= before);
                done = true;
            },
            Some(o) => {
                if tick.is_some() && tick.unwrap() < o {
                    let t = tick.unwrap();
                    let cl = find_char_exec(rest, '`', t + 1);
                    proof {
                        lemma_find_char(r, '`', t + 1);
                    }
                    match cl {
                        Some(c) => {
                            assert(scan_brackets(r, pick) == scan_brackets(r.skip(c + 1), pick));
                            assert(r.skip(c + 1) =~= line@.skip(at + c + 1));
                            at = at + c + 1;
                        },
                        None => {
                            assert(scan_brackets(r, pick) == Seq::<Seq<char>>::empty());
                            assert(before + Seq::<Seq<char>>::empty() =~= before);
                            done = true;
                        },
                    }
                } else {
                    let cl = close_at(rest, o);
                    proof {
                        lemma_close_from(r, o + 1, 1);
                    }
                    match cl {
                        None => {
                            assert(scan_brackets(r, pick) == Seq::<Seq<char>>::empty());
                            assert(before + Seq::<Seq<char>>::empty() =~= before);
                            done = true;
                        },
                        Some(e) => {
                            let inner = &rest[o + 1..e];
                            assert(inner@ =~= r.subrange(o + 1, e as int));
                            if inner.len() > 0 && inner[0] == '$' {
                                let tail = string_of(&inner[1..inner.len()]);
                                assert(tail@ =~= inner@.skip(1));
                                let latex = trim(tail.as_str());
                                out.push(latex);
                                assert(out.deep_view() =~= before.push(spec_trim(inner@.skip(1))));
                                assert(before + (seq![spec_trim(inner@.skip(1))] + scan_brackets(r.skip(e + 1), pick))
                                    =~= out.deep_view() + scan_brackets(r.skip(e + 1), pick));
                            } else {
                                assert(before + (Seq::<Seq<char>>::empty() + scan_brackets(r.skip(e + 1), pick))
                                    =~= out.deep_view() + scan_brackets(r.skip(e + 1), pick));
                            }
                            assert(r.skip(e + 1) =~= line@.skip(at + e + 1));
                            at = at + e + 1;
                        },
                    }
                }
            },
        }
    }
    out
}

// ---------------------------------------------------------------------------
// Gyazo
// ---------------------------------------------------------------------------

/// Service subdomains of gyazo.com that are not Teams organisation names.
pub open spec fn service_sub(s: Seq<char>) -> bool {
    s == "i"@ || s == "t"@ || s == "thumb"@ || s == "www"@ || s == "api"@ || s == "upload"@
}

pub open spec fn is_hex_char(c: char) -> bool {
    ('0' <= c <= '9') || ('a' <= c <= 'f') || ('A' <= c <= 'F')
}

/// How many hexadecimal digits run from `k`, counting at most `n`.
pub open spec fn hex_run(s: Seq<char>, k: int, n: int) -> int
    decreases n,
{
    if n <= 0 || k < 0 || k >= s.len() || !is_hex_char(s[k]) {
        0
    } else {
        1 + hex_run(s, k + 1, n - 1)
    }
}

/// The last position before `k` holding `/`, `[` or whitespace.
pub open spec fn host_delim(s: Seq<char>, k: int) -> Option<int>
    decreases k,
{
    if k <= 0 || k > s.len() {
        None
    } else if s[k - 1] == '/' || s[k - 1] == '[' || unicode_whitespace(s[k - 1]) {
        Some(k - 1)
    } else {
        host_delim(s, k - 1)
    }
}

/// `s` without its trailing dots.
pub open spec fn trim_dots(s: Seq<char>) -> Seq<char>
    decreases s.len(),
{
    if s.len() > 0 && s.last() == '.' {
        trim_dots(s.drop_last())
    } else {
        s
    }
}

/// The canonical permalink for the hit whose `gyazo.com/` starts at `kw`:
/// a Teams organisation keeps its subdomain, everything else is
/// `gyazo.com`. `None` when the subdomain would start inside a multi-byte
/// whitespace character, where the slice of the text cannot be taken.
pub open spec fn gyazo_url_at(s: Seq<char>, kw: int) -> Option<Seq<char>> {
    let hex = s.subrange(kw + 10, kw + 42);
    let d = host_delim(s, kw);
    if d is Some && unicode_whitespace(s[d->Some_0]) && (s[d->Some_0] as u32) >= 128 {
        None
    } else {
        let hs = match d {
            Some(j) => j + 1,
            None => 0,
        };
        let sub = trim_dots(s.subrange(hs, kw));
        Some(
            if sub.len() == 0 || service_sub(sub) {
                "https://gyazo.com/"@ + hex
            } else {
                "https://"@ + sub + ".gyazo.com/"@ + hex
            },
        )
    }
}

/// Every gyazo permalink in `s` from `from` on, appended to `acc` once
/// each, in order of appearance; `None` where a slice cannot be taken.
pub open spec fn gyazo_from(s: Seq<char>, low: Seq<char>, from: int, acc: Seq<Seq<char>>) -> Option<Seq<Seq<char>>>
    decreases s.len() + 1 - from,
{
    match find_from(low, "gyazo.com/"@, from) {
        None => Some(acc),
        Some(kw) => if kw < from || kw + 10 > s.len() {
            Some(acc)
        } else {
            let id = kw + 10;
            let next = if hex_run(s, id, 32) == 32 {
                match gyazo_url_at(s, kw) {
                    None => None,
                    Some(u) => Some(
                        if acc.contains(u) {
                            acc
                        } else {
                            acc.push(u)
                        },
                    ),
                }
            } else {
                Some(acc)
            };
            match next {
                None => None,
                Some(a2) => if id >= s.len() {
                    Some(a2)
                } else {
                    gyazo_from(s, low, id, a2)
                },
            }
        },
    }
}

pub open spec fn spec_find_gyazo(s: Seq<char>, acc: Seq<Seq<char>>) -> Option<Seq<Seq<char>>> {
    gyazo_from(s, ascii_lower_seq(s), 0, acc)
}

pub(crate) fn hex_char_exec(c: char) -> (b: bool)
    ensures
        b == is_hex_char(c),
{
    ('0' <= c && c <= '9') || ('a' <= c && c <= 'f') || ('A' <= c && c <= 'F')
}

fn hex_run_exec(cs: &[char], k: usize) -> (n: usize)
    ensures
        n == hex_run(cs@, k as int, 32),
        n <= 32,
{
    let mut n: usize = 0;
    while n < 32 && k + n < cs.len() && hex_char_exec(cs[k + n])
        invariant
            n <= 32,
            k + n <= cs.len() || n == 0,
            hex_run(cs@, k as int, 32) == n + hex_run(cs@, k + n, 32 - n),
        decreases 32 - n,
    {
        n += 1;
    }
    n
}

fn contains_string(v: &Vec<String>, u: &str) -> (b: bool)
    ensures
        b == v.deep_view().contains(u@),
{
    let mut i: usize = 0;
    while i < v.len()
        invariant
            i <= v.len(),
            forall|k: int| 0 <= k < i ==> v.deep_view()[k] != u@,
        decreases v.len() - i,
    {
        if str_eq(v[i].as_str(), u) {
            assert(v.deep_view()[i as int] == u@);
            return true;
        }
        i += 1;
    }
    false
}

/// The permalink of the hit at `kw` (whose 32 hex digits are known).
fn gyazo_url(cs: &Vec<char>, kw: usize) -> (u: String)
    requires
        kw + 42 <= cs.len(),
        gyazo_url_at(cs@, kw as int) is Some,
    ensures
        u@ == gyazo_url_at(cs@, kw as int)->Some_0,
{
    let mut j = kw;
    while j > 0 && !(cs[j - 1] == '/' || cs[j - 1] == '[' || is_whitespace(cs[j - 1]))
        invariant
            j <= kw,
            kw + 42 <= cs.len(),
            host_delim(cs@, kw as int) == host_delim(cs@, j as int),
        decreases j,
    {
        j -= 1;
    }
    let mut e = kw;
    while e > j && cs[e - 1] == '.'
        invariant
            j <= e <= kw,
            kw + 42 <= cs.len(),
            trim_dots(cs@.subrange(j as int, kw as int)) == trim_dots(cs@.subrange(j as int, e as int)),
        decreases e,
    {
        assert(cs@.subrange(j as int, e as int).drop_last() =~= cs@.subrange(j as int, e - 1));
        e -= 1;
    }
    let sub = string_of(&cs.as_slice()[j..e]);
    let hex = string_of(&cs.as_slice()[kw + 10..kw + 42]);
    proof {
        let t = cs@.subrange(j as int, e as int);
        if t.len() > 0 {
            assert(t.last() == cs@[e - 1]);
        }
        assert(trim_dots(t) == t);
    }
    let is_service = str_eq(sub.as_str(), "i") || str_eq(sub.as_str(), "t") || str_eq(sub.as_str(), "thumb")
        || str_eq(sub.as_str(), "www") || str_eq(sub.as_str(), "api") || str_eq(sub.as_str(), "upload");
    let mut u = String::new();
    if sub.as_str().is_empty() || is_service {
        u.append("https://gyazo.com/");
        u.append(hex.as_str());
    } else {
        u.append("https://");
        u.append(sub.as_str());
        u.append(".gyazo.com/");
        u.append(hex.as_str());
    }
    u
}

/// Collect the canonical gyazo permalinks in `s`, each once: a Teams
/// `<org>.gyazo.com/<id>` keeps its organisation, `gyazo.com/<id>` and a
/// direct `i.gyazo.com/<id>.png` become `https://gyazo.com/<id>`.
pub fn find_gyazo(s: &str, out: &mut Vec<String>)
    requires
        spec_find_gyazo(s@, old(out).deep_view()) is Some,
    ensures
        final(out).deep_view() == spec_find_gyazo(s@, old(out).deep_view())->Some_0,
{
    let cs = chars_of(s);
    let low = to_ascii_lower(s);
    let pat: Vec<char> = vec!['g', 'y', 'a', 'z', 'o', '.', 'c', 'o', 'm', '/'];
    proof {
        reveal_strlit("gyazo.com/");
        assert(pat@ =~= "gyazo.com/"@);
    }
    let ghost acc0 = out.deep_view();
    let ghost want = spec_find_gyazo(s@, acc0);
    let mut from: usize = 0;
    loop
        invariant_except_break
            from <= cs.len(),
        invariant
            cs@ == s@,
            low@ == ascii_lower_seq(s@),
            low@.len() == s@.len(),
            pat@ == "gyazo.com/"@,
            pat@.len() == 10,
            want is Some,
            want == gyazo_from(s@, low@, from as int, out.deep_view()),
        ensures
            want == Some(out.deep_view()),
        decreases cs.len() + 1 - from,
    {
        let found = find_chars(low.as_slice(), pat.as_slice(), from);
        proof {
            lemma_find_from_bounds(low@, "gyazo.com/"@, from as int);
        }
        match found {
            None => {
                break;
            },
            Some(kw) => {
                let id = kw + 10;
                let n = hex_run_exec(cs.as_slice(), id);
                if n == 32 {
                    proof {
                        lemma_hex_run_bound(cs@, id as int, 32);
                    }
                    let u = gyazo_url(&cs, kw);
                    if !contains_string(out, u.as_str()) {
                        let ghost before = out.deep_view();
                        out.push(u);
                        assert(out.deep_view() =~= before.push(u@));
                    }
                }
                from = id;
                if from >= cs.len() {
                    break;
                }
            },
        }
    }
}

/// Can the permalink of the hit at `kw` be taken? (Not when the subdomain
/// would start inside a multi-byte whitespace character.)
fn gyazo_at_ok(cs: &Vec<char>, kw: usize) -> (b: bool)
    requires
        kw <= cs.len(),
    ensures
        b == (gyazo_url_at(cs@, kw as int) is Some),
{
    let mut j = kw;
    while j > 0 && !(cs[j - 1] == '/' || cs[j - 1] == '[' || is_whitespace(cs[j - 1]))
        invariant
            j <= kw <= cs.len(),
            host_delim(cs@, kw as int) == host_delim(cs@, j as int),
        decreases j,
    {
        j -= 1;
    }
    if j == 0 {
        assert(host_delim(cs@, kw as int) is None);
        true
    } else {
        assert(host_delim(cs@, kw as int) == Some(j - 1));
        let c = cs[j - 1];
        !(is_whitespace(c) && (c as u32) >= 128)
    }
}

/// `find_gyazo` where a permalink cannot be taken: `false` then (the
/// output is not to be used), else `true` with the permalinks collected.
pub fn find_gyazo_checked(s: &str, out: &mut Vec<String>) -> (ok: bool)
    ensures
        ok == spec_find_gyazo(s@, old(out).deep_view()) is Some,
        ok ==> final(out).deep_view() == spec_find_gyazo(s@, old(out).deep_view())->Some_0,
{
    let cs = chars_of(s);
    let low = to_ascii_lower(s);
    let pat: Vec<char> = vec!['g', 'y', 'a', 'z', 'o', '.', 'c', 'o', 'm', '/'];
    proof {
        reveal_strlit("gyazo.com/");
        assert(pat@ =~= "gyazo.com/"@);
    }
    let ghost acc0 = out.deep_view();
    let ghost want = spec_find_gyazo(s@, acc0);
    let mut from: usize = 0;
    loop
        invariant_except_break
            from <= cs.len(),
        invariant
            cs@ == s@,
            low@ == ascii_lower_seq(s@),
            low@.len() == s@.len(),
            pat@ == "gyazo.com/"@,
            pat@.len() == 10,
            want == spec_find_gyazo(s@, acc0),
            acc0 == old(out).deep_view(),
            want == gyazo_from(s@, low@, from as int, out.deep_view()),
        ensures
            want == Some(out.deep_view()),
        decreases cs.len() + 1 - from,
    {
        let found = find_chars(low.as_slice(), pat.as_slice(), from);
        proof {
            lemma_find_from_bounds(low@, "gyazo.com/"@, from as int);
        }
        match found {
            None => {
                break;
            },
            Some(kw) => {
                let id = kw + 10;
                let n = hex_run_exec(cs.as_slice(), id);
                if n == 32 {
                    proof {
                        lemma_hex_run_bound(cs@, id as int, 32);
                    }
                    if !gyazo_at_ok(&cs, kw) {
                        assert(hex_run(s@, id as int, 32) == 32);
                        assert(gyazo_from(s@, low@, from as int, out.deep_view()) is None);
                        return false;
                    }
                    let u = gyazo_url(&cs, kw);
                    if !contains_string(out, u.as_str()) {
                        let ghost before = out.deep_view();
                        out.push(u);
                        assert(out.deep_view() =~= before.push(u@));
                    }
                }
                from = id;
                if from >= cs.len() {
                    break;
                }
            },
        }
    }
    true
}

proof fn lemma_hex_run_bound(s: Seq<char>, k: int, n: int)
    requires
        0 <= k,
    ensures
        k + hex_run(s, k, n) <= s.len() || hex_run(s, k, n) == 0,
    decreases n,
{
    if !(n <= 0 || k < 0 || k >= s.len() || !is_hex_char(s[k])) {
        lemma_hex_run_bound(s, k + 1, n - 1);
    }
}

/// The canonical gyazo page for any gyazo URL form, or `None` for one that
/// is not gyazo.
pub fn gyazo_permalink(url: &str) -> (r: Option<String>)
    requires
        spec_find_gyazo(url@, Seq::empty()) is Some,
    ensures
        match r {
            Some(u) => spec_find_gyazo(url@, Seq::empty())->Some_0.len() > 0 && u@ == spec_find_gyazo(
                url@,
                Seq::empty(),
            )->Some_0[0],
            None => spec_find_gyazo(url@, Seq::empty())->Some_0.len() == 0,
        },
{
    let mut v: Vec<String> = Vec::new();
    assert(v.deep_view() =~= Seq::<Seq<char>>::empty());
    find_gyazo(url, &mut v);
    if v.len() > 0 {
        let first = v.remove(0);
        Some(first)
    } else {
        None
    }
}

/// `gyazo_permalink` for any URL: `None` where the scan meets a slice it
/// cannot take, otherwise `Some` of what `gyazo_permalink` answers.
pub fn gyazo_permalink_checked(url: &str) -> (r: Option<Option<String>>)
    ensures
        r is Some <==> spec_find_gyazo(url@, Seq::empty()) is Some,
        r matches Some(p) ==> match p {
            Some(u) => spec_find_gyazo(url@, Seq::empty())->Some_0.len() > 0 && u@ == spec_find_gyazo(
                url@,
                Seq::empty(),
            )->Some_0[0],
            None => spec_find_gyazo(url@, Seq::empty())->Some_0.len() == 0,
        },
{
    let mut v: Vec<String> = Vec::new();
    assert(v.deep_view() =~= Seq::<Seq<char>>::empty());
    if !find_gyazo_checked(url, &mut v) {
        return None;
    }
    if v.len() > 0 {
        let first = v.remove(0);
        Some(Some(first))
    } else {
        Some(None)
    }
}

// ---------------------------------------------------------------------------
// Image URLs
// ---------------------------------------------------------------------------

/// The first position at or after `k` holding `?` or `#` (the length when
/// there is none).
pub open spec fn query_start(s: Seq<char>, k: int) -> int
    decreases s.len() - k,
{
    if k < 0 || k >= s.len() {
        s.len() as int
    } else if s[k] == '?' || s[k] == '#' {
        k
    } else {
        query_start(s, k + 1)
    }
}

/// A URL without its query and fragment.
pub open spec fn url_path(u: Seq<char>) -> Seq<char> {
    u.take(query_start(u, 0))
}

pub open spec fn is_http(u: Seq<char>) -> bool {
    has_prefix(u, "http://"@) || has_prefix(u, "https://"@)
}

/// File extensions drawn as images.
pub open spec fn image_ext(path: Seq<char>) -> bool {
    has_suffix(path, ".png"@) || has_suffix(path, ".jpg"@) || has_suffix(path, ".jpeg"@) || has_suffix(
        path,
        ".gif"@,
    ) || has_suffix(path, ".webp"@) || has_suffix(path, ".bmp"@) || has_suffix(path, ".ico"@)
        || has_suffix(path, ".tiff"@)
}

/// After the first `/files/`, up to the next one: an upload without an
/// extension is a picture; with one it is a file to download.
pub open spec fn extensionless_upload(path: Seq<char>) -> bool {
    match find_from(path, "/files/"@, 0) {
        None => false,
        Some(k) => {
            let rest = path.skip(k + 7);
            let piece = match find_from(rest, "/files/"@, 0) {
                Some(k2) => rest.take(k2),
                None => rest,
            };
            !piece.contains('.')
        },
    }
}

/// Whether a URL points at a picture: by file extension (query and
/// fragment ignored, any ASCII case) or by being an extension-less upload.
pub open spec fn spec_looks_like_image(u: Seq<char>) -> bool {
    is_http(u) && (image_ext(ascii_lower_seq(url_path(u))) || extensionless_upload(
        ascii_lower_seq(url_path(u)),
    ))
}

proof fn lemma_query_start(s: Seq<char>, k: int)
    requires
        0 <= k <= s.len(),
    ensures
        k <= query_start(s, k) <= s.len(),
    decreases s.len() - k,
{
    if k < s.len() && !(s[k] == '?' || s[k] == '#') {
        lemma_query_start(s, k + 1);
    }
}

fn path_end(cs: &[char]) -> (n: usize)
    ensures
        n == query_start(cs@, 0),
        n <= cs.len(),
{
    proof {
        lemma_query_start(cs@, 0);
    }
    let mut k: usize = 0;
    while k < cs.len() && cs[k] != '?' && cs[k] != '#'
        invariant
            k <= cs.len(),
            query_start(cs@, 0) == query_start(cs@, k as int),
        decreases cs.len() - k,
    {
        k += 1;
    }
    k
}

fn ends_chars(cs: &[char], p: &str) -> (b: bool)
    ensures
        b == has_suffix(cs@, p@),
{
    let ps = chars_of(p);
    if ps.len() > cs.len() {
        return false;
    }
    occurs_at_exec(cs, ps.as_slice(), cs.len() - ps.len())
}

fn has_dot(cs: &[char]) -> (b: bool)
    ensures
        b == cs@.contains('.'),
{
    let mut i: usize = 0;
    while i < cs.len()
        invariant
            i <= cs.len(),
            forall|k: int| 0 <= k < i ==> cs@[k] != '.',
        decreases cs.len() - i,
    {
        if cs[i] == '.' {
            assert(cs@[i as int] == '.');
            return true;
        }
        i += 1;
    }
    false
}

/// Whether a URL points at a decodable image.
pub fn looks_like_image_url(url: &str) -> (b: bool)
    ensures
        b == spec_looks_like_image(url@),
{
    if !(crate::text::starts_with(url, "http://") || crate::text::starts_with(url, "https://")) {
        return false;
    }
    let cs = chars_of(url);
    let n = path_end(cs.as_slice());
    let lowered = to_ascii_lower(string_of(&cs.as_slice()[0..n]).as_str());
    assert(cs@.subrange(0, n as int) =~= url_path(url@));
    let path = lowered.as_slice();
    if ends_chars(path, ".png") || ends_chars(path, ".jpg") || ends_chars(path, ".jpeg") || ends_chars(path, ".gif")
        || ends_chars(path, ".webp") || ends_chars(path, ".bmp") || ends_chars(path, ".ico") || ends_chars(
        path,
        ".tiff",
    ) {
        return true;
    }
    let files: Vec<char> = vec!['/', 'f', 'i', 'l', 'e', 's', '/'];
    proof {
        reveal_strlit("/files/");
        assert(files@ =~= "/files/"@);
    }
    match find_chars(path, files.as_slice(), 0) {
        None => false,
        Some(k) => {
            proof {
                lemma_find_from_bounds(path@, "/files/"@, 0);
            }
            let rest = &path[k + 7..path.len()];
            assert(rest@ =~= path@.skip(k + 7));
            let piece = match find_chars(rest, files.as_slice(), 0) {
                Some(k2) => {
                    proof {
                        lemma_find_from_bounds(rest@, "/files/"@, 0);
                    }
                    assert(rest@.subrange(0, k2 as int) =~= rest@.take(k2 as int));
                    &rest[0..k2]
                },
                None => rest,
            };
            !has_dot(piece)
        },
    }
}

/// An uploaded file that is not an image (`…/files/<id>.pdf`).
pub fn is_scrapbox_file_url(url: &str) -> (b: bool)
    ensures
        b == (is_http(url@) && contains_seq(url@, "/files/"@) && !spec_looks_like_image(url@)),
{
    (crate::text::starts_with(url, "https://") || crate::text::starts_with(url, "http://"))
        && crate::text::contains_str(url, "/files/") && !looks_like_image_url(url)
}

/// The last position before `k` holding `/`.
pub open spec fn last_slash(s: Seq<char>, k: int) -> Option<int>
    decreases k,
{
    if k <= 0 || k > s.len() {
        None
    } else if s[k - 1] == '/' {
        Some(k - 1)
    } else {
        last_slash(s, k - 1)
    }
}

/// The file name a URL ends in: the path's last segment.
pub open spec fn spec_file_name(u: Seq<char>) -> Seq<char> {
    let e = query_start(u, 0);
    match last_slash(u, e) {
        Some(j) => u.subrange(j + 1, e),
        None => u.take(e),
    }
}

proof fn lemma_last_slash(s: Seq<char>, k: int)
    requires
        0 <= k <= s.len(),
    ensures
        last_slash(s, k) is Some ==> 0 <= last_slash(s, k)->Some_0 < k,
    decreases k,
{
    if k > 0 && s[k - 1] != '/' {
        lemma_last_slash(s, k - 1);
    }
}

/// The file name an upload URL ends in (`abc.pdf`).
pub fn file_name_of_url(url: &str) -> (name: &str)
    ensures
        name@ == spec_file_name(url@),
{
    let cs = chars_of(url);
    let e = path_end(cs.as_slice());
    let mut j = e;
    while j > 0 && cs[j - 1] != '/'
        invariant
            j <= e <= cs.len(),
            last_slash(cs@, e as int) == last_slash(cs@, j as int),
        decreases j,
    {
        j -= 1;
    }
    proof {
        lemma_last_slash(cs@, e as int);
    }
    let r = url.substring_char(j, e);
    assert(j == 0 ==> url@.subrange(0, e as int) =~= url@.take(e as int));
    r
}

// ---------------------------------------------------------------------------
// Pictures on a line
// ---------------------------------------------------------------------------

/// The whitespace-separated tokens of `s` from `k` on, the current one
/// having started at `start` (what `split_whitespace` gives).
pub open spec fn tokens_from(s: Seq<char>, start: int, k: int) -> Seq<Seq<char>>
    decreases s.len() - k,
{
    if k >= s.len() {
        if start < s.len() {
            seq![s.subrange(start, s.len() as int)]
        } else {
            Seq::empty()
        }
    } else if unicode_whitespace(s[k]) {
        (if start < k {
            seq![s.subrange(start, k)]
        } else {
            Seq::empty()
        }) + tokens_from(s, k + 1, k + 1)
    } else {
        tokens_from(s, start, k + 1)
    }
}

pub open spec fn ws_tokens(s: Seq<char>) -> Seq<Seq<char>> {
    tokens_from(s, 0, 0)
}

fn tokens(s: &[char]) -> (out: Vec<String>)
    ensures
        out.deep_view() == ws_tokens(s@),
{
    let mut out: Vec<String> = Vec::new();
    let mut start: usize = 0;
    let mut k: usize = 0;
    while k < s.len()
        invariant
            start <= k <= s.len(),
            out.deep_view() + tokens_from(s@, start as int, k as int) == ws_tokens(s@),
        decreases s.len() - k,
    {
        if is_whitespace(s[k]) {
            if start < k {
                let piece = string_of(&s[start..k]);
                let ghost before = out.deep_view();
                out.push(piece);
                assert(out.deep_view() =~= before.push(s@.subrange(start as int, k as int)));
                assert(out.deep_view() + tokens_from(s@, k + 1, k + 1) =~= before + (seq![
                    s@.subrange(start as int, k as int),
                ] + tokens_from(s@, k + 1, k + 1)));
            } else {
                assert(tokens_from(s@, start as int, k as int) =~= tokens_from(s@, k + 1, k + 1));
            }
            start = k + 1;
        }
        k += 1;
    }
    if start < s.len() {
        let piece = string_of(&s[start..s.len()]);
        let ghost before = out.deep_view();
        out.push(piece);
        assert(out.deep_view() =~= before + seq![s@.subrange(start as int, s@.len() as int)]);
    } else {
        assert(out.deep_view() =~= out.deep_view() + Seq::<Seq<char>>::empty());
    }
    out
}

/// The first token that is an image URL.
pub open spec fn first_image(ts: Seq<Seq<char>>, k: int) -> Option<Seq<char>>
    decreases ts.len() - k,
{
    if k < 0 || k >= ts.len() {
        None
    } else if spec_looks_like_image(ts[k]) {
        Some(ts[k])
    } else {
        first_image(ts, k + 1)
    }
}

/// The picture a single `[…]` embeds, if it is one: a gyazo form (when the
/// bracket holds at most a link and the gyazo URL), a bracketed image URL,
/// or the linked-image form `[href imageUrl]` / `[imageUrl href]`.
pub open spec fn spec_image_in_bracket(inner: Seq<char>) -> Option<Seq<char>> {
    let t = spec_trim(inner);
    let g = spec_find_gyazo(t, Seq::empty());
    let ts = ws_tokens(t);
    if g is Some && g->Some_0.len() > 0 && contains_seq(t, "gyazo.com"@) && ts.len() <= 2 {
        Some(g->Some_0[0])
    } else if ts.len() <= 2 {
        first_image(ts, 0)
    } else {
        None
    }
}

/// The bracket's inside can be read (no gyazo hit cuts a character).
pub open spec fn bracket_readable(inner: Seq<char>) -> bool {
    spec_find_gyazo(spec_trim(inner), Seq::empty()) is Some
}

pub(crate) fn image_in_bracket(inner: &str) -> (r: Option<String>)
    requires
        bracket_readable(inner@),
    ensures
        match spec_image_in_bracket(inner@) {
            Some(u) => r is Some && r->Some_0@ == u,
            None => r is None,
        },
{
    let t = trim(inner);
    let mut g: Vec<String> = Vec::new();
    assert(g.deep_view() =~= Seq::<Seq<char>>::empty());
    find_gyazo(t.as_str(), &mut g);
    let tc = chars_of(t.as_str());
    let ts = tokens(tc.as_slice());
    if g.len() > 0 && crate::text::contains_str(t.as_str(), "gyazo.com") && ts.len() <= 2 {
        assert(g.deep_view()[0] == g[0]@);
        return Some(g[0].clone());
    }
    if ts.len() <= 2 {
        let mut k: usize = 0;
        while k < ts.len()
            invariant
                k <= ts.len() <= 2,
                ts.deep_view() == ws_tokens(spec_trim(inner@)),
                spec_find_gyazo(spec_trim(inner@), Seq::empty()) == Some(g.deep_view()),
                !(g.len() > 0 && contains_seq(spec_trim(inner@), "gyazo.com"@) && ts.len() <= 2),
                first_image(ts.deep_view(), 0) == first_image(ts.deep_view(), k as int),
            decreases ts.len() - k,
        {
            assert(ts.deep_view()[k as int] == ts[k as int]@);
            if looks_like_image_url(ts[k].as_str()) {
                return Some(ts[k].clone());
            }
            k += 1;
        }
        return None;
    }
    None
}

/// The image a line is entirely made of: one bracket and nothing else,
/// with no backtick-quoted notation.
pub open spec fn spec_standalone_image(body: Seq<char>) -> Option<Seq<char>> {
    let t = spec_trim(body);
    if t.contains('`') || t.len() < 2 || t[0] != '[' || t.last() != ']' {
        None
    } else {
        let inner = t.subrange(1, t.len() - 1);
        if inner.contains('[') || inner.contains(']') {
            None
        } else {
            spec_image_in_bracket(inner)
        }
    }
}

/// The image a line is entirely made of, which becomes a picture on its
/// own row.
pub fn standalone_image(body: &str) -> (r: Option<String>)
    requires
        spec_trim(body@).len() >= 2 ==> bracket_readable(spec_trim(body@).subrange(1, spec_trim(body@).len() - 1)),
    ensures
        match spec_standalone_image(body@) {
            Some(u) => r is Some && r->Some_0@ == u,
            None => r is None,
        },
{
    let t = trim(body);
    let cs = chars_of(t.as_str());
    if has_dot_like(cs.as_slice(), '`') {
        return None;
    }
    if cs.len() < 2 || cs[0] != '[' || cs[cs.len() - 1] != ']' {
        return None;
    }
    let inner = &cs.as_slice()[1..cs.len() - 1];
    if has_dot_like(inner, '[') || has_dot_like(inner, ']') {
        return None;
    }
    let s = string_of(inner);
    image_in_bracket(s.as_str())
}

fn has_dot_like(cs: &[char], c: char) -> (b: bool)
    ensures
        b == cs@.contains(c),
{
    let mut i: usize = 0;
    while i < cs.len()
        invariant
            i <= cs.len(),
            forall|k: int| 0 <= k < i ==> cs@[k] != c,
        decreases cs.len() - i,
    {
        if cs[i] == c {
            assert(cs@[i as int] == c);
            return true;
        }
        i += 1;
    }
    false
}

/// Every bracket of the line can be read.
pub open spec fn brackets_readable(s: Seq<char>) -> bool
    decreases s.len(),
{
    let tick = find_char(s, '`', 0);
    let open = find_char(s, '[', 0);
    if open is None {
        true
    } else if tick is Some && tick->Some_0 < open->Some_0 {
        match find_char(s, '`', tick->Some_0 + 1) {
            Some(c) => if c + 1 <= s.len() && c >= 0 {
                brackets_readable(s.skip(c + 1))
            } else {
                true
            },
            None => true,
        }
    } else {
        let o = open->Some_0;
        match close_from(s, o + 1, 1) {
            None => true,
            Some(e) => if e < o || e >= s.len() || o < 0 {
                true
            } else {
                bracket_readable(s.subrange(o + 1, e)) && brackets_readable(s.skip(e + 1))
            },
        }
    }
}

/// Every image a line embeds, in the order written. Only the bracketed form
/// draws a picture; a bare URL is a link.
pub fn line_images(body: &str) -> (out: Vec<String>)
    requires
        brackets_readable(body@),
    ensures
        out.deep_view() == scan_brackets(body@, |inner: Seq<char>| spec_image_in_bracket(inner)),
{
    let cs = chars_of(body);
    let ghost pick = |inner: Seq<char>| spec_image_in_bracket(inner);
    let mut out: Vec<String> = Vec::new();
    let mut at: usize = 0;
    let mut done = false;
    assert(body@.skip(0) =~= body@);
    assert(out.deep_view() + scan_brackets(body@, pick) =~= scan_brackets(body@, pick));
    while !done
        invariant
            at <= cs.len(),
            cs@ == body@,
            pick == (|inner: Seq<char>| spec_image_in_bracket(inner)),
            !done ==> brackets_readable(body@.skip(at as int)),
            !done ==> scan_brackets(body@, pick) == out.deep_view() + scan_brackets(body@.skip(at as int), pick),
            done ==> scan_brackets(body@, pick) == out.deep_view(),
        decreases cs.len() - at, (if done { 0int } else { 1int }),
    {
        let rest = &cs.as_slice()[at..cs.len()];
        let ghost r = body@.skip(at as int);
        let ghost before = out.deep_view();
        assert(rest@ =~= r);
        let tick = find_char_exec(rest, '`', 0);
        let open = find_char_exec(rest, '[', 0);
        proof {
            lemma_find_char(r, '`', 0);
            lemma_find_char(r, '[', 0);
        }
        match open {
            None => {
                assert(scan_brackets(r, pick) == Seq::<Seq<char>>::empty());
                assert(before + Seq::<Seq<char>>::empty() =~= before);
                done = true;
            },
            Some(o) => {
                if tick.is_some() && tick.unwrap() < o {
                    let t = tick.unwrap();
                    let cl = find_char_exec(rest, '`', t + 1);
                    proof {
                        lemma_find_char(r, '`', t + 1);
                    }
                    match cl {
                        Some(c) => {
                            assert(scan_brackets(r, pick) == scan_brackets(r.skip(c + 1), pick));
                            assert(r.skip(c + 1) =~= body@.skip(at + c + 1));
                            at = at + c + 1;
                        },
                        None => {
                            assert(scan_brackets(r, pick) == Seq::<Seq<char>>::empty());
                            assert(before + Seq::<Seq<char>>::empty() =~= before);
                            done = true;
                        },
                    }
                } else {
                    let cl = close_at(rest, o);
                    proof {
                        lemma_close_from(r, o + 1, 1);
                    }
                    match cl {
                        None => {
                            assert(scan_brackets(r, pick) == Seq::<Seq<char>>::empty());
                            assert(before + Seq::<Seq<char>>::empty() =~= before);
                            done = true;
                        },
                        Some(e) => {
                            let inner = string_of(&rest[o + 1..e]);
                            assert(inner@ =~= r.subrange(o + 1, e as int));
                            match image_in_bracket(inner.as_str()) {
                                Some(u) => {
                                    out.push(u);
                                    assert(out.deep_view() =~= before.push(spec_image_in_bracket(inner@)->Some_0));
                                    assert(before + (seq![spec_image_in_bracket(inner@)->Some_0] + scan_brackets(
                                        r.skip(e + 1),
                                        pick,
                                    )) =~= out.deep_view() + scan_brackets(r.skip(e + 1), pick));
                                },
                                None => {
                                    assert(before + (Seq::<Seq<char>>::empty() + scan_brackets(r.skip(e + 1), pick))
                                        =~= out.deep_view() + scan_brackets(r.skip(e + 1), pick));
                                },
                            }
                            assert(r.skip(e + 1) =~= body@.skip(at + e + 1));
                            at = at + e + 1;
                        },
                    }
                }
            },
        }
    }
    out
}


/// Where reading a line as one picture would cut a character: the line is
/// one bracket and nothing else, but its inside cannot be read.
pub open spec fn standalone_unreadable(body: Seq<char>) -> bool {
    let t = spec_trim(body);
    &&& !t.contains('`')
    &&& t.len() >= 2
    &&& t[0] == '['
    &&& t.last() == ']'
    &&& !t.subrange(1, t.len() - 1).contains('[')
    &&& !t.subrange(1, t.len() - 1).contains(']')
    &&& !bracket_readable(t.subrange(1, t.len() - 1))
}

/// `standalone_image`, or `None` where the picture's permalink cannot be
/// cut out of the line.
pub fn standalone_image_checked(body: &str) -> (r: Option<Option<String>>)
    ensures
        match r {
            None => standalone_unreadable(body@),
            Some(x) => !standalone_unreadable(body@) && match spec_standalone_image(body@) {
                Some(u) => x is Some && x->Some_0@ == u,
                None => x is None,
            },
        },
{
    let t = trim(body);
    let cs = chars_of(t.as_str());
    if has_dot_like(cs.as_slice(), '`') {
        return Some(None);
    }
    if cs.len() < 2 || cs[0] != '[' || cs[cs.len() - 1] != ']' {
        return Some(None);
    }
    let inner = &cs.as_slice()[1..cs.len() - 1];
    if has_dot_like(inner, '[') || has_dot_like(inner, ']') {
        return Some(None);
    }
    let s = string_of(inner);
    let ts = trim(s.as_str());
    let mut g: Vec<String> = Vec::new();
    assert(g.deep_view() =~= Seq::<Seq<char>>::empty());
    if !find_gyazo_checked(ts.as_str(), &mut g) {
        return None;
    }
    Some(image_in_bracket(s.as_str()))
}

/// Whether every bracket of the line can be read (see `brackets_readable`).
pub fn brackets_readable_exec(body: &str) -> (ok: bool)
    ensures
        ok == brackets_readable(body@),
{
    let cs = chars_of(body);
    let mut at: usize = 0;
    assert(body@.skip(0) =~= body@);
    loop
        invariant
            at <= cs.len(),
            cs@ == body@,
            brackets_readable(body@) == brackets_readable(body@.skip(at as int)),
        decreases cs.len() - at,
    {
        let rest = &cs.as_slice()[at..cs.len()];
        let ghost r = body@.skip(at as int);
        assert(rest@ =~= r);
        let tick = find_char_exec(rest, '`', 0);
        let open = find_char_exec(rest, '[', 0);
        proof {
            lemma_find_char(r, '`', 0);
            lemma_find_char(r, '[', 0);
        }
        match open {
            None => {
                return true;
            },
            Some(o) => {
                if tick.is_some() && tick.unwrap() < o {
                    let t = tick.unwrap();
                    let cl = find_char_exec(rest, '`', t + 1);
                    proof {
                        lemma_find_char(r, '`', t + 1);
                    }
                    match cl {
                        Some(c) => {
                            assert(r.skip(c + 1) =~= body@.skip(at + c + 1));
                            at = at + c + 1;
                        },
                        None => {
                            return true;
                        },
                    }
                } else {
                    let cl = close_at(rest, o);
                    proof {
                        lemma_close_from(r, o + 1, 1);
                    }
                    match cl {
                        None => {
                            return true;
                        },
                        Some(e) => {
                            let inner = string_of(&rest[o + 1..e]);
                            assert(inner@ =~= r.subrange(o + 1, e as int));
                            let ti = trim(inner.as_str());
                            let mut g: Vec<String> = Vec::new();
                            assert(g.deep_view() =~= Seq::<Seq<char>>::empty());
                            if !find_gyazo_checked(ti.as_str(), &mut g) {
                                return false;
                            }
                            assert(r.skip(e + 1) =~= body@.skip(at + e + 1));
                            at = at + e + 1;
                        },
                    }
                }
            },
        }
    }
}

} // verus!
