//! The decisions around the headless browser that draws what the terminal
//! cannot: which key chord a probe sends, what URL a page has, whether a
//! navigation ended on a login wall, why a drawing failed, and reading the
//! screenshots it sends back. Driving the browser itself is the caller's.
use vstd::prelude::*;
use vstd::utf8::encode_utf8;
use crate::text::{
    find_from, find_chars, chars_of, eq_ignore_ascii_case, eq_ignore_case,
};

verus! {

/// Why a browser drawing failed.
#[derive(Clone, Debug, PartialEq, Eq)]
pub enum WebError {
    /// No browser to drive.
    NoBrowser,
    /// The page is behind a login this browser does not have.
    NotAuthorized,
    /// The page loaded but the thing to draw never appeared.
    NotRendered,
    /// The budget ran out.
    Timeout { seconds: u64 },
    /// Something else, in words.
    Backend(String),
}

/// The exact modified-arrow chord sent by the outline protocol probe: one
/// arrow key event carrying the Ctrl or Alt modifier.
#[derive(Clone, Copy, Debug, PartialEq, Eq, Structural)]
pub enum OutlineProbeKey {
    CtrlUp,
    CtrlDown,
    CtrlLeft,
    CtrlRight,
    AltUp,
    AltDown,
    AltLeft,
    AltRight,
}

/// The refusal of an unknown chord name: the name in quotes, then the
/// list of the known ones.
pub open spec fn invalid_key_message(value: Seq<char>) -> Seq<char> {
    "invalid key \""@ + value
        + "\"; expected ctrl-up|ctrl-down|ctrl-left|ctrl-right|alt-up|alt-down|alt-left|alt-right"@
}

pub open spec fn spec_probe_key(l: Seq<char>) -> Option<OutlineProbeKey> {
    if l == "ctrl-up"@ {
        Some(OutlineProbeKey::CtrlUp)
    } else if l == "ctrl-down"@ {
        Some(OutlineProbeKey::CtrlDown)
    } else if l == "ctrl-left"@ {
        Some(OutlineProbeKey::CtrlLeft)
    } else if l == "ctrl-right"@ {
        Some(OutlineProbeKey::CtrlRight)
    } else if l == "alt-up"@ {
        Some(OutlineProbeKey::AltUp)
    } else if l == "alt-down"@ {
        Some(OutlineProbeKey::AltDown)
    } else if l == "alt-left"@ {
        Some(OutlineProbeKey::AltLeft)
    } else if l == "alt-right"@ {
        Some(OutlineProbeKey::AltRight)
    } else {
        None
    }
}

pub open spec fn spec_cdp(k: OutlineProbeKey) -> (u8, Seq<char>, u16) {
    let modifier: u8 = match k {
        OutlineProbeKey::CtrlUp | OutlineProbeKey::CtrlDown | OutlineProbeKey::CtrlLeft
        | OutlineProbeKey::CtrlRight => 2,
        _ => 1,
    };
    match k {
        OutlineProbeKey::CtrlUp | OutlineProbeKey::AltUp => (modifier, "ArrowUp"@, 38),
        OutlineProbeKey::CtrlDown | OutlineProbeKey::AltDown => (modifier, "ArrowDown"@, 40),
        OutlineProbeKey::CtrlLeft | OutlineProbeKey::AltLeft => (modifier, "ArrowLeft"@, 37),
        _ => (modifier, "ArrowRight"@, 39),
    }
}

impl OutlineProbeKey {
    /// Read a chord name (`ctrl-up` … `alt-right`, any ASCII case); an
    /// unknown name is refused with the list of the known ones.
    pub fn parse(value: &str) -> (r: Result<Self, String>)
        ensures
            match spec_probe_key(crate::text::ascii_lower_seq(value@)) {
                Some(k) => r == Ok::<Self, String>(k),
                None => r is Err && r->Err_0@ == invalid_key_message(value@),
            },
    {
        let lower = crate::text::string_of(crate::text::to_ascii_lower(value).as_slice());
        let l = lower.as_str();
        if crate::text::str_eq(l, "ctrl-up") {
            Ok(OutlineProbeKey::CtrlUp)
        } else if crate::text::str_eq(l, "ctrl-down") {
            Ok(OutlineProbeKey::CtrlDown)
        } else if crate::text::str_eq(l, "ctrl-left") {
            Ok(OutlineProbeKey::CtrlLeft)
        } else if crate::text::str_eq(l, "ctrl-right") {
            Ok(OutlineProbeKey::CtrlRight)
        } else if crate::text::str_eq(l, "alt-up") {
            Ok(OutlineProbeKey::AltUp)
        } else if crate::text::str_eq(l, "alt-down") {
            Ok(OutlineProbeKey::AltDown)
        } else if crate::text::str_eq(l, "alt-left") {
            Ok(OutlineProbeKey::AltLeft)
        } else if crate::text::str_eq(l, "alt-right") {
            Ok(OutlineProbeKey::AltRight)
        } else {
            let mut msg = String::new();
            msg.append("invalid key \"");
            msg.append(value);
            msg.append(
                "\"; expected ctrl-up|ctrl-down|ctrl-left|ctrl-right|alt-up|alt-down|alt-left|alt-right",
            );
            Err(msg)
        }
    }

    /// The devtools modifier bitmask, the DOM key name and the virtual-key
    /// value of this chord.
    pub fn cdp(self) -> (r: (u8, &'static str, u16))
        ensures
            r.0 == spec_cdp(self).0,
            r.1@ == spec_cdp(self).1,
            r.2 == spec_cdp(self).2,
    {
        let modifier: u8 = match self {
            OutlineProbeKey::CtrlUp | OutlineProbeKey::CtrlDown | OutlineProbeKey::CtrlLeft
            | OutlineProbeKey::CtrlRight => 2,
            _ => 1,
        };
        match self {
            OutlineProbeKey::CtrlUp | OutlineProbeKey::AltUp => (modifier, "ArrowUp", 38),
            OutlineProbeKey::CtrlDown | OutlineProbeKey::AltDown => (modifier, "ArrowDown", 40),
            OutlineProbeKey::CtrlLeft | OutlineProbeKey::AltLeft => (modifier, "ArrowLeft", 37),
            _ => (modifier, "ArrowRight", 39),
        }
    }
}

impl std::str::FromStr for OutlineProbeKey {
    type Err = String;

    fn from_str(value: &str) -> (r: Result<Self, Self::Err>)
        ensures
            match spec_probe_key(crate::text::ascii_lower_seq(value@)) {
                Some(k) => r == Ok::<Self, String>(k),
                None => r is Err && r->Err_0@ == invalid_key_message(value@),
            },
    {
        OutlineProbeKey::parse(value)
    }
}

// ---------------------------------------------------------------------------
// URLs
// ---------------------------------------------------------------------------

/// An uppercase hexadecimal digit.
pub open spec fn hex_upper(v: int) -> char {
    if v < 10 {
        (('0' as int) + v) as char
    } else {
        (('A' as int) + v - 10) as char
    }
}

/// A byte a URL path segment may carry as it is.
pub open spec fn unreserved(b: u8) -> bool {
    (65 <= b <= 90) || (97 <= b <= 122) || (48 <= b <= 57) || b == 45 || b == 95 || b == 46 || b
        == 126
}

/// Percent-encoding of one path segment, byte by byte of its UTF-8.
pub open spec fn encode_segment(bytes: Seq<u8>) -> Seq<char>
    decreases bytes.len(),
{
    if bytes.len() == 0 {
        Seq::empty()
    } else {
        let b = bytes.last();
        encode_segment(bytes.drop_last()) + if unreserved(b) {
            seq![b as char]
        } else {
            seq!['%', hex_upper((b / 16) as int), hex_upper((b % 16) as int)]
        }
    }
}

fn hex_upper_char(v: u8) -> (c: char)
    requires
        v < 16,
    ensures
        c == hex_upper(v as int),
{
    let digits: [char; 16] = ['0', '1', '2', '3', '4', '5', '6', '7', '8', '9', 'A', 'B', 'C', 'D', 'E', 'F'];
    let c = digits[v as usize];
    assert(c == hex_upper(v as int));
    c
}

fn byte_char(b: u8) -> (c: char)
    requires
        b < 128,
    ensures
        c == b as char,
{
    let table: [char; 128] = [
        '\u{0}', '\u{1}', '\u{2}', '\u{3}', '\u{4}', '\u{5}', '\u{6}', '\u{7}', '\u{8}', '\t', '\n',
        '\u{b}', '\u{c}', '\r', '\u{e}', '\u{f}', '\u{10}', '\u{11}', '\u{12}', '\u{13}', '\u{14}',
        '\u{15}', '\u{16}', '\u{17}', '\u{18}', '\u{19}', '\u{1a}', '\u{1b}', '\u{1c}', '\u{1d}',
        '\u{1e}', '\u{1f}', ' ', '!', '"', '#', '$', '%', '&', '\'', '(', ')', '*', '+', ',', '-',
        '.', '/', '0', '1', '2', '3', '4', '5', '6', '7', '8', '9', ':', ';', '<', '=', '>', '?',
        '@', 'A', 'B', 'C', 'D', 'E', 'F', 'G', 'H', 'I', 'J', 'K', 'L', 'M', 'N', 'O', 'P', 'Q',
        'R', 'S', 'T', 'U', 'V', 'W', 'X', 'Y', 'Z', '[', '\\', ']', '^', '_', '`', 'a', 'b', 'c',
        'd', 'e', 'f', 'g', 'h', 'i', 'j', 'k', 'l', 'm', 'n', 'o', 'p', 'q', 'r', 's', 't', 'u',
        'v', 'w', 'x', 'y', 'z', '{', '|', '}', '~', '\u{7f}',
    ];
    let c = table[b as usize];
    assert(c == b as char);
    c
}

fn segment(value: &str) -> (s: Vec<char>)
    ensures
        s@ == encode_segment(encode_utf8(value@)),
{
    let bytes = value.as_bytes();
    let mut out: Vec<char> = Vec::new();
    let mut i: usize = 0;
    while i < bytes.len()
        invariant
            i <= bytes.len(),
            bytes@ == encode_utf8(value@),
            out@ == encode_segment(bytes@.take(i as int)),
        decreases bytes.len() - i,
    {
        let b = bytes[i];
        assert(bytes@.take(i + 1).drop_last() =~= bytes@.take(i as int));
        let ghost before = out@;
        if (65 <= b && b <= 90) || (97 <= b && b <= 122) || (48 <= b && b <= 57) || b == 45 || b == 95
            || b == 46 || b == 126 {
            out.push(byte_char(b));
        } else {
            out.push('%');
            out.push(hex_upper_char(b / 16));
            out.push(hex_upper_char(b % 16));
        }
        assert(out@ =~= encode_segment(bytes@.take(i + 1)));
        i += 1;
    }
    assert(bytes@.take(bytes.len() as int) =~= bytes@);
    out
}

/// The Cosense page URL, each path segment percent-encoded byte by byte
/// (letters, digits and `-_.~` kept).
pub open spec fn spec_page_url(project: Seq<char>, title: Seq<char>) -> Seq<char> {
    "https://scrapbox.io/"@ + encode_segment(encode_utf8(project)) + seq!['/'] + encode_segment(
        encode_utf8(title),
    )
}

pub fn cosense_page_url(project: &str, title: &str) -> (s: String)
    ensures
        s@ == spec_page_url(project@, title@),
{
    let p = segment(project);
    let t = segment(title);
    let mut s = String::new();
    s.append("https://scrapbox.io/");
    s.append(crate::text::string_of(p.as_slice()).as_str());
    s.append("/");
    s.append(crate::text::string_of(t.as_slice()).as_str());
    proof {
        reveal_strlit("/");
    }
    s
}

/// The first position at or after `k` holding one of `/`, `?`, `#`.
pub open spec fn first_delim(s: Seq<char>, k: int, path_too: bool) -> int
    decreases s.len() - k,
{
    if k < 0 || k >= s.len() {
        s.len() as int
    } else if (path_too && s[k] == '/') || s[k] == '?' || s[k] == '#' {
        k
    } else {
        first_delim(s, k + 1, path_too)
    }
}

/// `(host, path)` of an absolute URL, with query and fragment dropped.
pub open spec fn spec_url_parts(u: Seq<char>) -> Option<(Seq<char>, Seq<char>)> {
    match find_from(u, "://"@, 0) {
        None => None,
        Some(k) => {
            let rest = u.skip(k + 3);
            let end = first_delim(rest, 0, true);
            let tail = rest.skip(end);
            Some((rest.take(end), tail.take(first_delim(tail, 0, false))))
        },
    }
}

proof fn lemma_first_delim_bounds(s: Seq<char>, k: int, path_too: bool)
    requires
        0 <= k <= s.len(),
    ensures
        k <= first_delim(s, k, path_too) <= s.len(),
    decreases s.len() - k,
{
    if k < s.len() && !((path_too && s[k] == '/') || s[k] == '?' || s[k] == '#') {
        lemma_first_delim_bounds(s, k + 1, path_too);
    }
}

fn first_delim_exec(s: &[char], path_too: bool) -> (r: usize)
    ensures
        r == first_delim(s@, 0, path_too),
{
    let mut k: usize = 0;
    while k < s.len()
        invariant
            k <= s.len(),
            first_delim(s@, 0, path_too) == first_delim(s@, k as int, path_too),
        decreases s.len() - k,
    {
        let c = s[k];
        if (path_too && c == '/') || c == '?' || c == '#' {
            return k;
        }
        k += 1;
    }
    k
}

/// `(host, path)` of an absolute URL.
pub fn url_parts(u: &str) -> (r: Option<(String, String)>)
    ensures
        match spec_url_parts(u@) {
            None => r is None,
            Some(hp) => r is Some && r->Some_0.0@ == hp.0 && r->Some_0.1@ == hp.1,
        },
{
    let cs = chars_of(u);
    let sep: Vec<char> = vec![':', '/', '/'];
    proof {
        reveal_strlit("://");
        assert(sep@ =~= "://"@);
    }
    match find_chars(cs.as_slice(), sep.as_slice(), 0) {
        None => None,
        Some(k) => {
            proof {
                crate::text::lemma_find_from_bounds(u@, "://"@, 0);
            }
            assert(find_from(u@, "://"@, 0) == Some(k as int));
            assert(k + 3 <= cs.len());
            let rest = &cs.as_slice()[k + 3..cs.len()];
            assert(rest@ =~= u@.skip(k + 3));
            let end = first_delim_exec(rest, true);
            proof {
                lemma_first_delim_bounds(rest@, 0, true);
            }
            let tail = &rest[end..rest.len()];
            assert(tail@ =~= rest@.skip(end as int));
            let pend = first_delim_exec(tail, false);
            proof {
                lemma_first_delim_bounds(tail@, 0, false);
            }
            let host = crate::text::string_of(&rest[0..end]);
            let path = crate::text::string_of(&tail[0..pend]);
            assert(rest@.subrange(0, end as int) =~= rest@.take(end as int));
            assert(tail@.subrange(0, pend as int) =~= tail@.take(pend as int));
            Some((host, path))
        },
    }
}

/// The non-empty `/`-separated segments of `s` from position `k` on, the
/// current one having started at `start`.
pub open spec fn segs_from(s: Seq<char>, start: int, k: int) -> Seq<Seq<char>>
    decreases s.len() - k,
{
    if k >= s.len() {
        if start < s.len() {
            seq![s.subrange(start, s.len() as int)]
        } else {
            Seq::empty()
        }
    } else if s[k] == '/' {
        (if start < k {
            seq![s.subrange(start, k)]
        } else {
            Seq::empty()
        }) + segs_from(s, k + 1, k + 1)
    } else {
        segs_from(s, start, k + 1)
    }
}

/// The path's non-empty segments.
pub open spec fn spec_segments(path: Seq<char>) -> Seq<Seq<char>> {
    segs_from(path, 0, 0)
}

pub fn segments(path: &str) -> (segs: Vec<String>)
    ensures
        segs.deep_view() == spec_segments(path@),
{
    let cs = chars_of(path);
    let mut out: Vec<String> = Vec::new();
    let mut start: usize = 0;
    let mut k: usize = 0;
    while k < cs.len()
        invariant
            start <= k <= cs.len(),
            cs@ == path@,
            out.deep_view() + segs_from(path@, start as int, k as int) == spec_segments(path@),
        decreases cs.len() - k,
    {
        if cs[k] == '/' {
            if start < k {
                let piece = crate::text::string_of(&cs.as_slice()[start..k]);
                let ghost before = out.deep_view();
                out.push(piece);
                assert(out.deep_view() =~= before.push(path@.subrange(start as int, k as int)));
                assert(out.deep_view() + segs_from(path@, k + 1, k + 1) =~= before + (seq![
                    path@.subrange(start as int, k as int),
                ] + segs_from(path@, k + 1, k + 1)));
            } else {
                assert(segs_from(path@, start as int, k as int) =~= segs_from(path@, k + 1, k + 1));
            }
            start = k + 1;
        }
        k += 1;
    }
    if start < cs.len() {
        let piece = crate::text::string_of(&cs.as_slice()[start..cs.len()]);
        let ghost before = out.deep_view();
        out.push(piece);
        assert(out.deep_view() =~= before + seq![path@.subrange(start as int, path@.len() as int)]);
    } else {
        assert(out.deep_view() =~= out.deep_view() + Seq::<Seq<char>>::empty());
    }
    out
}

/// Path segments that name an authentication route at the root of a site.
pub open spec fn is_auth_route(s: Seq<char>) -> bool {
    eq_ignore_ascii_case(s, "login"@) || eq_ignore_ascii_case(s, "auth"@) || eq_ignore_ascii_case(
        s,
        "logout"@,
    ) || eq_ignore_ascii_case(s, "signin"@) || eq_ignore_ascii_case(s, "sign-in"@)
}

/// Was the browser moved off the page we asked for onto an authentication
/// route? Only the first path segment of where it ended up counts, and a
/// page of a project that happens to be named like such a route does not.
pub open spec fn spec_redirected(requested: Seq<char>, current: Seq<char>) -> bool {
    match (spec_url_parts(requested), spec_url_parts(current)) {
        (Some(r), Some(c)) => {
            let csegs = spec_segments(c.1);
            if csegs.len() == 0 || !is_auth_route(csegs[0]) {
                false
            } else if c.0 != r.0 {
                true
            } else {
                let rsegs = spec_segments(r.1);
                csegs.len() < 2 || rsegs.len() == 0 || !eq_ignore_ascii_case(rsegs[0], csegs[0])
            }
        },
        _ => false,
    }
}

pub fn redirected_to_auth(requested: &str, current: &str) -> (b: bool)
    ensures
        b == spec_redirected(requested@, current@),
{
    let (rhost, rpath) = match url_parts(requested) {
        Some(p) => p,
        None => {
            return false;
        },
    };
    let (chost, cpath) = match url_parts(current) {
        Some(p) => p,
        None => {
            return false;
        },
    };
    let csegs = segments(cpath.as_str());
    if csegs.len() == 0 {
        return false;
    }
    let first = csegs[0].as_str();
    assert(csegs.deep_view()[0] == first@);
    if !(eq_ignore_case(first, "login") || eq_ignore_case(first, "auth") || eq_ignore_case(first, "logout")
        || eq_ignore_case(first, "signin") || eq_ignore_case(first, "sign-in")) {
        return false;
    }
    if !crate::text::str_eq(chost.as_str(), rhost.as_str()) {
        return true;
    }
    let rsegs = segments(rpath.as_str());
    if csegs.len() < 2 || rsegs.len() == 0 {
        return true;
    }
    assert(rsegs.deep_view()[0] == rsegs[0]@);
    !eq_ignore_case(rsegs[0].as_str(), first)
}

/// Why a page that did not finish drawing failed: `api` is the status the
/// page API gave this browser, `redirected` whether it landed on a login
/// route. The API outranks the URL; `None` means no verdict, and the budget
/// decides between a timeout and nothing drawn.
pub open spec fn spec_auth_verdict(api: Option<u16>, redirected: bool) -> bool {
    match api {
        Some(s) => s == 401 || s == 403,
        None => redirected,
    }
}

pub fn auth_verdict(api: Option<u16>, redirected: bool) -> (r: Option<WebError>)
    ensures
        spec_auth_verdict(api, redirected) ==> r == Some(WebError::NotAuthorized),
        !spec_auth_verdict(api, redirected) ==> r is None,
{
    match api {
        Some(401) | Some(403) => Some(WebError::NotAuthorized),
        Some(_) => None,
        None => if redirected {
            Some(WebError::NotAuthorized)
        } else {
            None
        },
    }
}

// ---------------------------------------------------------------------------
// Base64
// ---------------------------------------------------------------------------

/// The value of one standard base64 character.
pub open spec fn b64_val(c: u8) -> Option<u8> {
    if 65 <= c <= 90 {
        Some((c - 65) as u8)
    } else if 97 <= c <= 122 {
        Some((c - 97 + 26) as u8)
    } else if 48 <= c <= 57 {
        Some((c - 48 + 52) as u8)
    } else if c == 43 {
        Some(62)
    } else if c == 47 {
        Some(63)
    } else {
        None
    }
}

/// Padding and ASCII whitespace are skipped.
pub open spec fn b64_skipped(c: u8) -> bool {
    c == 61 || c == 32 || c == 9 || c == 10 || c == 12 || c == 13
}

/// The six-bit values of the characters, or `None` at the first character
/// that is neither a digit of the alphabet nor skipped.
pub open spec fn b64_sextets(s: Seq<u8>) -> Option<Seq<u8>>
    decreases s.len(),
{
    if s.len() == 0 {
        Some(Seq::empty())
    } else {
        match b64_sextets(s.drop_last()) {
            None => None,
            Some(v) => if b64_skipped(s.last()) {
                Some(v)
            } else {
                match b64_val(s.last()) {
                    Some(x) => Some(v.push(x)),
                    None => None,
                }
            },
        }
    }
}

/// Each group of four sextets is three bytes; a trailing group of two or
/// three gives one or two, and a lone trailing sextet gives none.
pub open spec fn b64_bytes(v: Seq<u8>) -> Seq<u8>
    decreases v.len(),
{
    if v.len() < 2 {
        Seq::empty()
    } else {
        let b0 = ((v[0] * 4) % 256 + v[1] / 16) as u8;
        if v.len() == 2 {
            seq![b0]
        } else {
            let b1 = ((v[1] % 16) * 16 + v[2] / 4) as u8;
            if v.len() == 3 {
                seq![b0, b1]
            } else {
                let b2 = ((v[2] % 4) * 64 + v[3]) as u8;
                seq![b0, b1, b2] + b64_bytes(v.skip(4))
            }
        }
    }
}

pub open spec fn spec_b64_decode(s: Seq<u8>) -> Option<Seq<u8>> {
    match b64_sextets(s) {
        Some(v) => Some(b64_bytes(v)),
        None => None,
    }
}

fn b64_value(c: u8) -> (r: Option<u8>)
    ensures
        r == b64_val(c),
{
    if 65 <= c && c <= 90 {
        Some(c - 65)
    } else if 97 <= c && c <= 122 {
        Some(c - 97 + 26)
    } else if 48 <= c && c <= 57 {
        Some(c - 48 + 52)
    } else if c == 43 {
        Some(62)
    } else if c == 47 {
        Some(63)
    } else {
        None
    }
}

/// The sextets of a base64 text.
fn sextets(s: &[u8]) -> (r: Option<Vec<u8>>)
    ensures
        match b64_sextets(s@) {
            Some(v) => r is Some && r->Some_0@ == v,
            None => r is None,
        },
{
    let mut v: Vec<u8> = Vec::new();
    let mut i: usize = 0;
    while i < s.len()
        invariant
            i <= s.len(),
            b64_sextets(s@.take(i as int)) == Some(v@),
        decreases s.len() - i,
    {
        let c = s[i];
        assert(s@.take(i + 1).drop_last() =~= s@.take(i as int));
        assert(s@.take(i + 1).last() == c);
        if !(c == 61 || c == 32 || c == 9 || c == 10 || c == 12 || c == 13) {
            match b64_value(c) {
                Some(x) => v.push(x),
                None => {
                    proof {
                        lemma_b64_none_stays(s@, i as int + 1);
                    }
                    assert(s@.take(s.len() as int) =~= s@);
                    return None;
                },
            }
        }
        i += 1;
    }
    assert(s@.take(s.len() as int) =~= s@);
    Some(v)
}

/// Once a prefix is refused, so is every longer text.
proof fn lemma_b64_none_stays(s: Seq<u8>, k: int)
    requires
        0 <= k <= s.len(),
        b64_sextets(s.take(k)) is None,
    ensures
        b64_sextets(s) is None,
    decreases s.len() - k,
{
    if k < s.len() {
        assert(s.take(k + 1).drop_last() =~= s.take(k));
        lemma_b64_none_stays(s, k + 1);
    } else {
        assert(s.take(k) =~= s);
    }
}

proof fn lemma_sextets_small(s: Seq<u8>)
    ensures
        b64_sextets(s) is Some ==> forall|k: int|
            0 <= k < b64_sextets(s)->Some_0.len() ==> #[trigger] b64_sextets(s)->Some_0[k] < 64,
    decreases s.len(),
{
    if s.len() > 0 {
        lemma_sextets_small(s.drop_last());
    }
}

/// Standard base64 (the browser's screenshots). Padding and whitespace are
/// skipped; any other character outside the alphabet refuses the text.
pub fn b64_decode(s: &str) -> (r: Option<Vec<u8>>)
    ensures
        match spec_b64_decode(encode_utf8(s@)) {
            Some(b) => r is Some && r->Some_0@ == b,
            None => r is None,
        },
{
    let vals = match sextets(s.as_bytes()) {
        Some(v) => v,
        None => {
            return None;
        },
    };
    proof {
        lemma_sextets_small(encode_utf8(s@));
    }
    assert(vals@.skip(0) =~= vals@);
    let mut out: Vec<u8> = Vec::new();
    let mut g: usize = 0;
    while 4 <= vals.len() - g
        invariant
            g <= vals.len(),
            g % 4 == 0,
            forall|k: int| 0 <= k < vals.len() ==> #[trigger] vals@[k] < 64,
            b64_bytes(vals@) == out@ + b64_bytes(vals@.skip(g as int)),
        decreases vals.len() - g,
    {
        let a = vals[g];
        let b = vals[g + 1];
        let c = vals[g + 2];
        let d = vals[g + 3];
        let ghost rest = vals@.skip(g as int);
        assert(rest[0] == a && rest[1] == b && rest[2] == c && rest[3] == d);
        assert(rest.skip(4) =~= vals@.skip(g + 4));
        let b0: u8 = ((a % 64) * 4) + b / 16;
        let b1: u8 = (b % 16) * 16 + c / 4;
        let b2: u8 = (c % 4) * 64 + d;
        let ghost before = out@;
        out.push(b0);
        out.push(b1);
        out.push(b2);
        assert(out@ + b64_bytes(vals@.skip(g + 4)) =~= before + (seq![b0, b1, b2] + b64_bytes(
            rest.skip(4),
        )));
        g += 4;
    }
    let left = vals.len() - g;
    let ghost rest = vals@.skip(g as int);
    if left >= 2 {
        let a = vals[g];
        let b = vals[g + 1];
        assert(rest[0] == a && rest[1] == b);
        out.push(((a % 64) * 4) + b / 16);
        if left == 3 {
            let c = vals[g + 2];
            assert(rest[2] == c);
            out.push((b % 16) * 16 + c / 4);
        }
    }
    assert(out@ =~= b64_bytes(vals@));
    Some(out)
}


// ---------------------------------------------------------------------------
// Waiting for the page's drawings
// ---------------------------------------------------------------------------

/// What one look at the page said: whether the page body is there,
/// whether the document has finished loading, where the browser is, and,
/// per requested element, whether it is drawn.
pub struct Look {
    pub loaded: bool,
    pub settled: bool,
    pub href: Option<String>,
    pub ready: Option<Vec<bool>>,
}

/// The wait for the requested elements, with time in milliseconds.
pub struct Wait {
    /// Per request: drawn yet.
    pub last: Vec<bool>,
    /// The page body has been seen.
    pub ever_loaded: bool,
    /// The browser has been seen on a login page.
    pub login_wall: bool,
    /// What the page API said to the browser, once asked.
    pub api_status: Option<u16>,
    /// Since when the document has been loaded with no page body.
    pub settled_at: Option<u64>,
    pub asked_api: bool,
    /// When a request was last seen drawn for the first time.
    pub last_progress: u64,
}

pub struct WaitModel {
    pub last: Seq<bool>,
    pub ever_loaded: bool,
    pub login_wall: bool,
    pub api_status: Option<u16>,
    pub settled_at: Option<u64>,
    pub asked_api: bool,
    pub last_progress: u64,
}

impl View for Wait {
    type V = WaitModel;

    open spec fn view(&self) -> WaitModel {
        WaitModel {
            last: self.last@,
            ever_loaded: self.ever_loaded,
            login_wall: self.login_wall,
            api_status: self.api_status,
            settled_at: self.settled_at,
            asked_api: self.asked_api,
            last_progress: self.last_progress,
        }
    }
}

/// What to do after a look.
#[derive(Clone, Copy, Debug, PartialEq, Eq, Structural)]
pub enum AfterLook {
    /// Every request is drawn: the wait is over.
    Ready,
    /// The document has sat loaded with no page body past the grace:
    /// ask the page API what it says to this browser (see `blank_answer`).
    AskApi,
    /// Keep waiting.
    Go,
}

/// What to do at the end of a round.
#[derive(Clone, Copy, Debug, PartialEq, Eq, Structural)]
pub enum AtEnd {
    /// Keep waiting (pause, then look again).
    Go,
    /// The wait is over, but a login wall was seen and the page API not
    /// yet asked: ask it, then finish.
    AskApi,
    /// The wait is over: finish.
    Finish,
}

/// How long a loaded document may show no page body before the page API
/// is asked why, in milliseconds.
pub const BLANK_GRACE_MS: u64 = 4000;

/// How long nothing new may be drawn on a loaded page before the wait
/// gives up on the rest, in milliseconds.
pub const QUIET_MS: u64 = 6000;

pub open spec fn flags_view(o: Option<Vec<bool>>) -> Option<Seq<bool>> {
    match o {
        Some(a) => Some(a@),
        None => None,
    }
}

/// The browser is on a login page rather than the one requested.
pub open spec fn wall_seen(requested: Seq<char>, href: Option<String>) -> bool {
    match href {
        Some(h) => spec_redirected(requested, h@),
        None => false,
    }
}

pub open spec fn since(now: u64, then: u64) -> int {
    if now > then { now - then } else { 0 }
}

/// The ready flags after a look: a request seen drawn stays drawn.
pub open spec fn ready_after(last: Seq<bool>, ready: Option<Seq<bool>>) -> Seq<bool> {
    match ready {
        None => last,
        Some(r) => Seq::new(last.len(), |i: int| last[i] || (i < r.len() && r[i])),
    }
}

/// Some request turned drawn in this look.
pub open spec fn progressed(last: Seq<bool>, ready: Option<Seq<bool>>) -> bool {
    match ready {
        None => false,
        Some(r) => exists|i: int| 0 <= i < last.len() && i < r.len() && #[trigger] r[i] && !last[i],
    }
}

pub open spec fn all_ready(last: Seq<bool>) -> bool {
    forall|i: int| 0 <= i < last.len() ==> #[trigger] last[i]
}

/// A look taken at `now`: what was seen is kept (the page body, a login
/// wall, each request drawn, and when one was first drawn); then the wait
/// is over if everything is drawn; else a document loaded with no body
/// starts (or keeps) its grace, and the page API is to be asked once the
/// grace has run out.
pub open spec fn spec_look(w: WaitModel, loaded: bool, settled: bool, redirected: bool, ready: Option<Seq<bool>>, now: u64) -> (WaitModel, AfterLook) {
    let ever = w.ever_loaded || loaded;
    let wall = w.login_wall || redirected;
    let last = ready_after(w.last, ready);
    let prog = if progressed(w.last, ready) { now } else { w.last_progress };
    let w1 = WaitModel { last, ever_loaded: ever, login_wall: wall, last_progress: prog, ..w };
    if all_ready(last) {
        (w1, AfterLook::Ready)
    } else if settled && !ever {
        let start = match w.settled_at {
            Some(t) => t,
            None => now,
        };
        let w2 = WaitModel { settled_at: Some(start), ..w1 };
        if since(now, start) > BLANK_GRACE_MS && !w.asked_api {
            (w2, AfterLook::AskApi)
        } else {
            (w2, AfterLook::Go)
        }
    } else {
        (WaitModel { settled_at: None, ..w1 }, AfterLook::Go)
    }
}

/// At the end of a round: the wait is over when the page has gone quiet
/// (loaded, nothing new drawn for a while), the deadline has passed, or
/// the caller stopped it; a login wall not yet checked is checked first,
/// unless the caller stopped.
pub open spec fn spec_at_end(w: WaitModel, now: u64, past_deadline: bool, stopped: bool) -> AtEnd {
    let stalled = w.ever_loaded && since(now, w.last_progress) > QUIET_MS;
    if stalled || past_deadline || stopped {
        if w.login_wall && !w.asked_api && !stopped { AtEnd::AskApi } else { AtEnd::Finish }
    } else {
        AtEnd::Go
    }
}

/// How a finished wait ends: refused where the page API (or, with no
/// answer, the login wall) says so; a timeout if the page body never
/// appeared; else the requests, drawn or not.
pub open spec fn spec_finish(api: Option<u16>, login_wall: bool, ever_loaded: bool, last: Seq<bool>, timeout_secs: u64) -> Result<Seq<bool>, WebError> {
    if spec_auth_verdict(api, login_wall) {
        Err(WebError::NotAuthorized)
    } else if !ever_loaded {
        Err(WebError::Timeout { seconds: timeout_secs })
    } else {
        Ok(last)
    }
}

impl Wait {
    /// A wait for `n` requests, started at `now`.
    pub fn new(n: usize, now: u64) -> (w: Wait)
        ensures
            w@.last == Seq::new(n as nat, |i: int| false),
            !w.ever_loaded && !w.login_wall && !w.asked_api,
            w.api_status is None && w.settled_at is None,
            w.last_progress == now,
    {
        let mut last: Vec<bool> = Vec::new();
        let mut k: usize = 0;
        while k < n
            invariant
                k <= n,
                last@ == Seq::new(k as nat, |i: int| false),
            decreases n - k,
        {
            last.push(false);
            k += 1;
            assert(last@ =~= Seq::new(k as nat, |i: int| false));
        }
        Wait { last, ever_loaded: false, login_wall: false, api_status: None, settled_at: None, asked_api: false, last_progress: now }
    }

    /// Take in one look at the page, opened for `requested_url`, at `now`
    /// (see `spec_look`). Drawn requests stay drawn.
    pub fn look(&mut self, v: &Look, requested_url: &str, now: u64) -> (r: AfterLook)
        ensures
            (final(self)@, r) == spec_look(
                old(self)@,
                v.loaded,
                v.settled,
                wall_seen(requested_url@, v.href),
                flags_view(v.ready),
                now,
            ),
            forall|i: int| 0 <= i < old(self).last.len() ==> old(self).last@[i] ==> final(self).last@[i],
    {
        let ghost w0 = self@;
        let ghost rv = flags_view(v.ready);
        let redirected = match &v.href {
            Some(h) => redirected_to_auth(requested_url, h.as_str()),
            None => false,
        };
        self.ever_loaded = self.ever_loaded || v.loaded;
        self.login_wall = self.login_wall || redirected;
        let mut moved = false;
        match &v.ready {
            Some(arr) => {
                let mut i: usize = 0;
                while i < self.last.len()
                    invariant
                        i <= self.last.len() == w0.last.len(),
                        rv == Some(arr@),
                        forall|k: int| 0 <= k < i ==> self.last@[k] == (w0.last[k] || (k < arr.len() && arr@[k])),
                        forall|k: int| i <= k < self.last.len() ==> self.last@[k] == w0.last[k],
                        moved == exists|k: int| 0 <= k < i && k < arr.len() && #[trigger] arr@[k] && !w0.last[k],
                        self.ever_loaded == (w0.ever_loaded || v.loaded),
                        self.login_wall == (w0.login_wall || redirected),
                        self.last_progress == w0.last_progress,
                        self.settled_at == w0.settled_at,
                        self.asked_api == w0.asked_api,
                        self.api_status == w0.api_status,
                    decreases self.last.len() - i,
                {
                    if i < arr.len() && arr[i] && !self.last[i] {
                        self.last.set(i, true);
                        moved = true;
                    }
                    i += 1;
                }
                assert(self.last@ =~= ready_after(w0.last, rv));
            },
            None => {
                assert(self.last@ =~= ready_after(w0.last, rv));
            },
        }
        assert(moved == progressed(w0.last, rv));
        if moved {
            self.last_progress = now;
        }
        let ghost redir = wall_seen(requested_url@, v.href);
        assert(redirected == redir);
        let ghost w1 = WaitModel {
            last: ready_after(w0.last, rv),
            ever_loaded: w0.ever_loaded || v.loaded,
            login_wall: w0.login_wall || redir,
            last_progress: if progressed(w0.last, rv) { now } else { w0.last_progress },
            ..w0
        };
        assert(self@ == w1);
        let mut all = true;
        let mut k: usize = 0;
        while k < self.last.len()
            invariant
                k <= self.last.len(),
                all == forall|x: int| 0 <= x < k ==> #[trigger] self.last@[x],
            decreases self.last.len() - k,
        {
            if !self.last[k] {
                all = false;
            }
            k += 1;
        }
        assert(all == all_ready(self.last@));
        if all {
            return AfterLook::Ready;
        }
        if v.settled && !self.ever_loaded {
            let start = match self.settled_at {
                Some(t) => t,
                None => now,
            };
            self.settled_at = Some(start);
            let gone: u64 = if now > start { now - start } else { 0 };
            if gone > BLANK_GRACE_MS && !self.asked_api {
                return AfterLook::AskApi;
            }
            AfterLook::Go
        } else {
            self.settled_at = None;
            AfterLook::Go
        }
    }

    /// The page API's answer to a blank page (`None` when none came): the
    /// wait is refused where it says so, else it goes on.
    pub fn blank_answer(&mut self, status: Option<u16>) -> (r: Option<WebError>)
        ensures
            final(self)@ == (WaitModel { asked_api: true, api_status: status, ..old(self)@ }),
            spec_auth_verdict(status, false) ==> r == Some(WebError::NotAuthorized),
            !spec_auth_verdict(status, false) ==> r is None,
    {
        self.asked_api = true;
        self.api_status = status;
        auth_verdict(status, false)
    }

    /// What to do at the end of a round (see `spec_at_end`).
    pub fn at_end(&self, now: u64, past_deadline: bool, stopped: bool) -> (r: AtEnd)
        ensures
            r == spec_at_end(self@, now, past_deadline, stopped),
    {
        let gone: u64 = if now > self.last_progress { now - self.last_progress } else { 0 };
        let stalled = self.ever_loaded && gone > QUIET_MS;
        if stalled || past_deadline || stopped {
            if self.login_wall && !self.asked_api && !stopped {
                AtEnd::AskApi
            } else {
                AtEnd::Finish
            }
        } else {
            AtEnd::Go
        }
    }

    /// How the wait ends, given the page API's answer where it was just
    /// asked (`Some(answer)`), with `timeout_secs` the budget reported on
    /// a timeout (see `spec_finish`).
    pub fn finish(&mut self, asked: Option<Option<u16>>, timeout_secs: u64) -> (r: Result<Vec<bool>, WebError>)
        ensures
            final(self)@ == (match asked {
                Some(s) => WaitModel { api_status: s, ..old(self)@ },
                None => old(self)@,
            }),
            match (r, spec_finish(final(self)@.api_status, old(self)@.login_wall, old(self)@.ever_loaded, old(self)@.last, timeout_secs)) {
                (Ok(v), Ok(l)) => v@ == l,
                (Err(e), Err(f)) => e == f,
                _ => false,
            },
    {
        match asked {
            Some(s) => {
                self.api_status = s;
            },
            None => {},
        }
        match auth_verdict(self.api_status, self.login_wall) {
            Some(e) => {
                return Err(e);
            },
            None => {},
        }
        if !self.ever_loaded {
            return Err(WebError::Timeout { seconds: timeout_secs });
        }
        let mut out: Vec<bool> = Vec::new();
        let mut k: usize = 0;
        while k < self.last.len()
            invariant
                k <= self.last.len(),
                out@ == self.last@.take(k as int),
            decreases self.last.len() - k,
        {
            out.push(self.last[k]);
            k += 1;
            assert(out@ =~= self.last@.take(k as int));
        }
        assert(self.last@.take(self.last.len() as int) =~= self.last@);
        Ok(out)
    }
}

} // verus!
