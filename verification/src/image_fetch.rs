//! Reading what the image services answer: which organisation and id a
//! gyazo permalink names, where a page's `og:image` points, and the cache
//! file a permalink is kept under. Fetching and decoding are the caller's.
use vstd::prelude::*;
use crate::text::{
    chars_of, string_of, has_prefix, has_suffix, find_from, find_chars, lemma_find_from_bounds, contains_seq,
    contains_str, str_eq, to_hex, hex_fixed,
};
use crate::inline::{is_hex_char, service_sub, find_char, hex_char_exec};
use crate::ime::{spec_fnv1a, fnv1a};

verus! {

/// How many hexadecimal digits run from `k` (unbounded).
pub open spec fn hex_prefix(s: Seq<char>, k: int) -> int
    decreases s.len() - k,
{
    if k < 0 || k >= s.len() || !is_hex_char(s[k]) {
        0
    } else {
        1 + hex_prefix(s, k + 1)
    }
}

/// The organisation (none for personal gyazo.com and service hosts) and the
/// 32-digit id a canonical gyazo permalink names.
pub open spec fn spec_parse_gyazo(p: Seq<char>) -> Option<(Option<Seq<char>>, Seq<char>)> {
    if !has_prefix(p, "https://"@) {
        None
    } else {
        let rest = p.skip(8);
        match find_char(rest, '/', 0) {
            None => None,
            Some(sl) => {
                let host = rest.take(sl);
                let path = rest.skip(sl + 1);
                if hex_prefix(path, 0) != 32 {
                    None
                } else {
                    let id = path.take(32);
                    if host == "gyazo.com"@ {
                        Some((None, id))
                    } else if has_suffix(host, ".gyazo.com"@) {
                        let org = host.take(host.len() - 10);
                        Some((if service_sub(org) { None } else { Some(org) }, id))
                    } else {
                        None
                    }
                }
            },
        }
    }
}

proof fn lemma_hex_prefix(s: Seq<char>, k: int)
    requires
        0 <= k <= s.len(),
    ensures
        k + hex_prefix(s, k) <= s.len(),
    decreases s.len() - k,
{
    if k < s.len() && is_hex_char(s[k]) {
        lemma_hex_prefix(s, k + 1);
    }
}

/// Which organisation and id a gyazo permalink names.
pub fn parse_gyazo(permalink: &str) -> (r: Option<(Option<String>, String)>)
    ensures
        match spec_parse_gyazo(permalink@) {
            None => r is None,
            Some((org, id)) => r is Some && r->Some_0.1@ == id && match org {
                Some(o) => r->Some_0.0 is Some && r->Some_0.0->Some_0@ == o,
                None => r->Some_0.0 is None,
            },
        },
{
    if !crate::text::starts_with(permalink, "https://") {
        return None;
    }
    proof {
        reveal_strlit("https://");
    }
    let cs = chars_of(permalink);
    let rest = &cs.as_slice()[8..cs.len()];
    assert(rest@ =~= permalink@.skip(8));
    let mut sl: usize = 0;
    while sl < rest.len() && rest[sl] != '/'
        invariant
            sl <= rest.len(),
            find_char(rest@, '/', 0) == find_char(rest@, '/', sl as int),
        decreases rest.len() - sl,
    {
        sl += 1;
    }
    if sl == rest.len() {
        return None;
    }
    let host = string_of(&rest[0..sl]);
    let path = &rest[sl + 1..rest.len()];
    assert(host@ =~= rest@.take(sl as int));
    assert(path@ =~= rest@.skip(sl + 1));
    let mut n: usize = 0;
    while n < path.len() && hex_char_exec(path[n])
        invariant
            n <= path.len(),
            hex_prefix(path@, 0) == n + hex_prefix(path@, n as int),
        decreases path.len() - n,
    {
        n += 1;
    }
    if n != 32 {
        return None;
    }
    let id = string_of(&path[0..32]);
    assert(id@ =~= path@.take(32));
    if str_eq(host.as_str(), "gyazo.com") {
        return Some((None, id));
    }
    if !crate::text::ends_with(host.as_str(), ".gyazo.com") {
        return None;
    }
    proof {
        reveal_strlit(".gyazo.com");
    }
    let hc = chars_of(host.as_str());
    let org = string_of(&hc.as_slice()[0..hc.len() - 10]);
    assert(org@ =~= host@.take(host@.len() - 10));
    let o = org.as_str();
    let service = str_eq(o, "i") || str_eq(o, "t") || str_eq(o, "thumb") || str_eq(o, "www") || str_eq(o, "api")
        || str_eq(o, "upload");
    if service {
        Some((None, id))
    } else {
        Some((Some(org), id))
    }
}

/// `name="value"` or `name='value'` inside one tag: the double-quoted form
/// is looked for first, and an unclosed value is none.
pub open spec fn spec_attr_value(tag: Seq<char>, name: Seq<char>) -> Option<Seq<char>> {
    match attr_in(tag, name, '"') {
        Some(r) => r,
        None => match attr_in(tag, name, '\'') {
            Some(r) => r,
            None => None,
        },
    }
}

/// `None` when `name=q` is not in the tag; `Some(None)` when the value does
/// not close.
pub open spec fn attr_in(tag: Seq<char>, name: Seq<char>, q: char) -> Option<Option<Seq<char>>> {
    let key = name + seq!['=', q];
    match find_from(tag, key, 0) {
        None => None,
        Some(pos) => {
            let start = pos + key.len();
            match find_char(tag, q, start) {
                None => Some(None),
                Some(end) => Some(Some(tag.subrange(start, end))),
            }
        },
    }
}

proof fn lemma_find_char_bounds(s: Seq<char>, c: char, k: int)
    requires
        0 <= k,
    ensures
        find_char(s, c, k) is Some ==> k <= find_char(s, c, k)->Some_0 < s.len(),
    decreases s.len() - k,
{
    if k < s.len() && s[k] != c {
        lemma_find_char_bounds(s, c, k + 1);
    }
}

fn attr_in_exec(tag: &[char], name: &str, q: char) -> (r: Option<Option<String>>)
    ensures
        match attr_in(tag@, name@, q) {
            None => r is None,
            Some(None) => r == Some(None::<String>),
            Some(Some(v)) => r is Some && r->Some_0 is Some && r->Some_0->Some_0@ == v,
        },
{
    let mut key = chars_of(name);
    key.push('=');
    key.push(q);
    assert(key@ =~= name@ + seq!['=', q]);
    match find_chars(tag, key.as_slice(), 0) {
        None => None,
        Some(pos) => {
            proof {
                lemma_find_from_bounds(tag@, key@, 0);
            }
            assert(find_from(tag@, key@, 0) == Some(pos as int));
            assert(pos + key.len() <= tag.len());
            let start = pos + key.len();
            let mut end = start;
            while end < tag.len() && tag[end] != q
                invariant
                    start <= end,
                    find_char(tag@, q, start as int) == find_char(tag@, q, end as int),
                decreases tag.len() - end,
            {
                end += 1;
            }
            if end >= tag.len() {
                Some(None)
            } else {
                let v = string_of(&tag[start..end]);
                Some(Some(v))
            }
        },
    }
}

/// `name="value"` / `name='value'` inside one tag.
pub fn attr_value(tag: &str, name: &str) -> (r: Option<String>)
    ensures
        match spec_attr_value(tag@, name@) {
            None => r is None,
            Some(v) => r is Some && r->Some_0@ == v,
        },
{
    let cs = chars_of(tag);
    match attr_in_exec(cs.as_slice(), name, '"') {
        Some(r) => r,
        None => match attr_in_exec(cs.as_slice(), name, '\'') {
            Some(r) => r,
            None => None,
        },
    }
}

/// The `og:image` of a page from `k` on: the first `<meta …>` tag whose
/// property is `og:image`; an unclosed `<meta` ends the search.
pub open spec fn og_from(h: Seq<char>, k: int) -> Option<Seq<char>>
    decreases h.len() + 1 - k,
{
    match find_from(h, "<meta"@, k) {
        None => None,
        Some(lt) => if lt < k {
            None
        } else {
            match find_char(h, '>', lt) {
                None => None,
                Some(gt) => if gt < lt || gt >= h.len() {
                    None
                } else {
                    let tag = h.subrange(lt, gt + 1);
                    if contains_seq(tag, "property=\"og:image\""@) || contains_seq(tag, "property='og:image'"@) {
                        spec_attr_value(tag, "content"@)
                    } else {
                        og_from(h, gt + 1)
                    }
                },
            }
        },
    }
}

/// The `og:image` URL from a page's HTML, whichever order the tag lists
/// its attributes in: the search is confined to the one tag that carries
/// the property.
pub fn og_image_from_html(html: &str) -> (r: Option<String>)
    ensures
        match og_from(html@, 0) {
            None => r is None,
            Some(v) => r is Some && r->Some_0@ == v,
        },
{
    let cs = chars_of(html);
    let meta: Vec<char> = vec!['<', 'm', 'e', 't', 'a'];
    proof {
        reveal_strlit("<meta");
        assert(meta@ =~= "<meta"@);
    }
    let mut k: usize = 0;
    while k <= cs.len()
        invariant
            cs@ == html@,
            meta@ == "<meta"@,
            og_from(html@, 0) == og_from(html@, k as int),
        decreases cs.len() + 1 - k,
    {
        let found = find_chars(cs.as_slice(), meta.as_slice(), k);
        proof {
            lemma_find_from_bounds(cs@, "<meta"@, k as int);
        }
        match found {
            None => {
                return None;
            },
            Some(lt) => {
                let mut gt = lt;
                while gt < cs.len() && cs[gt] != '>'
                    invariant
                        lt <= gt,
                        find_char(cs@, '>', lt as int) == find_char(cs@, '>', gt as int),
                    decreases cs.len() - gt,
                {
                    gt += 1;
                }
                if gt >= cs.len() {
                    return None;
                }
                let tag = string_of(&cs.as_slice()[lt..gt + 1]);
                if contains_str(tag.as_str(), "property=\"og:image\"") || contains_str(
                    tag.as_str(),
                    "property='og:image'",
                ) {
                    return attr_value(tag.as_str(), "content");
                }
                k = gt + 1;
            },
        }
    }
    None
}

/// The cache file a permalink is kept under: its 64-bit FNV-1a in sixteen
/// hex digits, then `.img`.
pub fn cache_key(permalink: &str) -> (s: String)
    ensures
        s@ == hex_fixed(spec_fnv1a(vstd::utf8::encode_utf8(permalink@)) as nat, 16) + ".img"@,
{
    let h = fnv1a(permalink.as_bytes());
    let mut s = to_hex(h, 16);
    s.append(".img");
    s
}


/// Where the bytes of a picture are asked for, tried in order until one
/// answers.
#[derive(Clone, Debug, PartialEq, Eq)]
pub enum Source {
    /// The URL itself, with the session cookie where it is a Scrapbox
    /// upload.
    Direct { url: String, with_sid: bool },
    /// The Gyazo API (needs the token), for the image URL of this id.
    GyazoApi { id: String },
    /// Gyazo's oEmbed answer for this capture page.
    GyazoOembed { page: String },
    /// The `og:image` of this capture page.
    GyazoOg { page: String },
}

pub enum SourceModel {
    Direct(Seq<char>, bool),
    GyazoApi(Seq<char>),
    GyazoOembed(Seq<char>),
    GyazoOg(Seq<char>),
}

pub open spec fn source_view(s: Source) -> SourceModel {
    match s {
        Source::Direct { url, with_sid } => SourceModel::Direct(url@, with_sid),
        Source::GyazoApi { id } => SourceModel::GyazoApi(id@),
        Source::GyazoOembed { page } => SourceModel::GyazoOembed(page@),
        Source::GyazoOg { page } => SourceModel::GyazoOg(page@),
    }
}

/// The capture page of a gyazo id: under its organisation's subdomain, or
/// gyazo.com.
pub open spec fn capture_page(org: Option<Seq<char>>, id: Seq<char>) -> Seq<char> {
    match org {
        Some(o) => "https://"@ + o + ".gyazo.com/"@ + id,
        None => "https://gyazo.com/"@ + id,
    }
}

/// How a permalink's picture is fetched: a Scrapbox upload directly, with
/// the session cookie; a gyazo capture through the API first when there is
/// a token (a Teams token does not see personal captures, so a failure
/// falls through), then oEmbed, then the page's `og:image`; anything else
/// directly.
pub open spec fn spec_download_plan(p: Seq<char>, has_token: bool) -> Seq<SourceModel> {
    if contains_seq(p, "scrapbox.io/files/"@) || contains_seq(p, "/files/"@) {
        seq![SourceModel::Direct(p, true)]
    } else {
        match spec_parse_gyazo(p) {
            Some(g) => {
                let page = capture_page(g.0, g.1);
                (if has_token { seq![SourceModel::GyazoApi(g.1)] } else { Seq::empty() }) + seq![
                    SourceModel::GyazoOembed(page),
                    SourceModel::GyazoOg(page),
                ]
            },
            None => seq![SourceModel::Direct(p, false)],
        }
    }
}

pub fn download_plan(permalink: &str, has_token: bool) -> (plan: Vec<Source>)
    ensures
        plan@.map_values(|s: Source| source_view(s)) == spec_download_plan(permalink@, has_token),
{
    let mut plan: Vec<Source> = Vec::new();
    if contains_str(permalink, "scrapbox.io/files/") || contains_str(permalink, "/files/") {
        plan.push(Source::Direct { url: crate::text::copy_str(permalink), with_sid: true });
        assert(plan@.map_values(|s: Source| source_view(s)) =~= spec_download_plan(permalink@, has_token));
        return plan;
    }
    match parse_gyazo(permalink) {
        Some((org, id)) => {
            let mut page = String::new();
            page.append("https://");
            match &org {
                Some(o) => {
                    page.append(o.as_str());
                    page.append(".gyazo.com/");
                },
                None => {
                    page.append("gyazo.com/");
                },
            }
            page.append(id.as_str());
            proof {
                reveal_strlit("https://");
                reveal_strlit(".gyazo.com/");
                reveal_strlit("gyazo.com/");
                reveal_strlit("https://gyazo.com/");
            }
            assert(page@ =~= capture_page(spec_parse_gyazo(permalink@)->Some_0.0, id@));
            if has_token {
                plan.push(Source::GyazoApi { id: crate::text::copy_str(id.as_str()) });
            }
            plan.push(Source::GyazoOembed { page: crate::text::copy_str(page.as_str()) });
            plan.push(Source::GyazoOg { page });
            assert(plan@.map_values(|s: Source| source_view(s)) =~= spec_download_plan(permalink@, has_token));
            plan
        },
        None => {
            plan.push(Source::Direct { url: crate::text::copy_str(permalink), with_sid: false });
            assert(plan@.map_values(|s: Source| source_view(s)) =~= spec_download_plan(permalink@, has_token));
            plan
        },
    }
}

/// The Gyazo API endpoint for an id's image.
pub fn gyazo_api_endpoint(id: &str) -> (u: String)
    ensures
        u@ == "https://api.gyazo.com/api/images/"@ + id@,
{
    let mut u = String::new();
    u.append("https://api.gyazo.com/api/images/");
    u.append(id);
    u
}

/// Gyazo's oEmbed endpoint for a capture page.
pub fn gyazo_oembed_endpoint(page: &str) -> (u: String)
    ensures
        u@ == "https://api.gyazo.com/api/oembed?url="@ + page@,
{
    let mut u = String::new();
    u.append("https://api.gyazo.com/api/oembed?url=");
    u.append(page);
    u
}

/// A download of an arbitrary URL carries the session cookie where the URL
/// is on Scrapbox (a private project's upload needs it).
pub fn needs_sid(url: &str) -> (b: bool)
    ensures
        b == contains_seq(url@, "scrapbox.io/"@),
{
    contains_str(url, "scrapbox.io/")
}

} // verus!
