//! Character-level string helpers the rest of the library is built on,
//! each with its meaning stated over character sequences.
use vstd::prelude::*;
use vstd::string::*;
use vstd::utf8::*;

verus! {

broadcast use vstd::utf8::encode_utf8_decode_utf8;

/// Two strings are equal exactly when their UTF-8 encodings are.
pub proof fn lemma_encoding_injective(a: Seq<char>, b: Seq<char>)
    ensures
        (encode_utf8(a) == encode_utf8(b)) == (a == b),
{
    if encode_utf8(a) == encode_utf8(b) {
        assert(decode_utf8(encode_utf8(a)) == a);
        assert(decode_utf8(encode_utf8(b)) == b);
    }
}

/// Exact string equality, byte by byte.
pub fn str_eq(a: &str, b: &str) -> (r: bool)
    ensures
        r == (a@ == b@),
{
    let x = a.as_bytes();
    let y = b.as_bytes();
    proof {
        lemma_encoding_injective(a@, b@);
    }
    if x.len() != y.len() {
        return false;
    }
    let mut i: usize = 0;
    while i < x.len()
        invariant
            i <= x.len() == y.len(),
            x@ == encode_utf8(a@),
            y@ == encode_utf8(b@),
            forall|k: int| 0 <= k < i ==> x@[k] == y@[k],
        decreases x.len() - i,
    {
        if x[i] != y[i] {
            return false;
        }
        i += 1;
    }
    assert(x@ =~= y@);
    true
}

/// The characters of a string, one by one.
pub fn chars_of(s: &str) -> (v: Vec<char>)
    ensures
        v@ == s@,
{
    let n = s.unicode_len();
    let mut v: Vec<char> = Vec::new();
    let mut i: usize = 0;
    while i < n
        invariant
            i <= n == s@.len(),
            v@ == s@.take(i as int),
        decreases n - i,
    {
        v.push(s.get_char(i));
        i += 1;
        assert(v@ =~= s@.take(i as int));
    }
    assert(v@ =~= s@);
    v
}

/// Append one character.
#[verifier::external_body]
pub(crate) fn push_char(s: &mut String, c: char)
    ensures
        final(s)@ == old(s)@.push(c),
{
    s.push(c)
}

/// A string holding exactly these characters.
pub fn string_of(cs: &[char]) -> (s: String)
    ensures
        s@ == cs@,
{
    let mut s = String::new();
    let mut i: usize = 0;
    while i < cs.len()
        invariant
            i <= cs.len(),
            s@ == cs@.take(i as int),
        decreases cs.len() - i,
    {
        push_char(&mut s, cs[i]);
        i += 1;
        assert(s@ =~= cs@.take(i as int));
    }
    assert(s@ =~= cs@);
    s
}

/// A copy of a string.
pub fn copy_str(s: &str) -> (r: String)
    ensures
        r@ == s@,
{
    s.to_owned()
}

/// `a` followed by `b`.
pub fn concat_str(a: &str, b: &str) -> (r: String)
    ensures
        r@ == a@ + b@,
{
    let mut r = a.to_owned();
    r.append(b);
    r
}

/// The characters of `s` from `from` (inclusive) to `to` (exclusive).
pub fn slice_chars(s: &str, from: usize, to: usize) -> (r: String)
    requires
        from <= to <= s@.len(),
    ensures
        r@ == s@.subrange(from as int, to as int),
{
    s.substring_char(from, to).to_owned()
}

/// Split on a separator the way `str::split` does: `k` separators give
/// `k + 1` pieces, empty pieces included.
pub open spec fn split_on(s: Seq<char>, sep: char) -> Seq<Seq<char>>
    decreases s.len(),
{
    if s.len() == 0 {
        seq![Seq::empty()]
    } else {
        let rest = split_on(s.drop_first(), sep);
        if s[0] == sep {
            seq![Seq::empty()] + rest
        } else {
            rest.update(0, seq![s[0]] + rest[0])
        }
    }
}

pub proof fn lemma_split_on_nonempty(s: Seq<char>, sep: char)
    ensures
        split_on(s, sep).len() >= 1,
    decreases s.len(),
{
    if s.len() > 0 {
        lemma_split_on_nonempty(s.drop_first(), sep);
    }
}

/// Join pieces with a separator in between.
pub open spec fn join_with(parts: Seq<Seq<char>>, sep: Seq<char>) -> Seq<char>
    decreases parts.len(),
{
    if parts.len() == 0 {
        Seq::empty()
    } else if parts.len() == 1 {
        parts[0]
    } else {
        join_with(parts.drop_last(), sep) + sep + parts.last()
    }
}

/// Split a string on `sep`.
pub fn split_str(s: &str, sep: char) -> (parts: Vec<String>)
    ensures
        parts.deep_view() == split_on(s@, sep),
{
    let cs = chars_of(s);
    let n = cs.len();
    // Build from the back so the recursion of `split_on` is followed.
    let mut parts: Vec<Vec<char>> = Vec::new();
    parts.push(Vec::new());
    let mut i: usize = n;
    proof {
        assert(s@.skip(n as int) =~= Seq::<char>::empty());
    }
    while i > 0
        invariant
            i <= n == cs@.len(),
            cs@ == s@,
            parts.len() >= 1,
            parts@.map_values(|p: Vec<char>| p@).reverse() == split_on(s@.skip(i as int), sep),
        decreases i,
    {
        let ghost before = parts@.map_values(|p: Vec<char>| p@).reverse();
        let c = cs[i - 1];
        assert(s@.skip(i - 1).drop_first() =~= s@.skip(i as int));
        assert(s@.skip(i - 1)[0] == c);
        if c == sep {
            parts.push(Vec::new());
            assert(parts@.map_values(|p: Vec<char>| p@).reverse() =~= seq![Seq::<char>::empty()] + before);
        } else {
            let ghost old_parts = parts@;
            let mut cur = parts.pop().unwrap();
            assert(cur@ == before[0]);
            cur.insert(0, c);
            assert(cur@ =~= seq![c] + before[0]);
            parts.push(cur);
            assert(parts@ =~= old_parts.drop_last().push(cur));
            assert(parts@.map_values(|p: Vec<char>| p@).reverse() =~= before.update(0, seq![c] + before[0]));
        }
        i -= 1;
    }
    assert(s@.skip(0) =~= s@);
    let ghost rev = parts@.map_values(|p: Vec<char>| p@).reverse();
    let mut out: Vec<String> = Vec::new();
    let mut k: usize = parts.len();
    while k > 0
        invariant
            k <= parts.len(),
            rev == parts@.map_values(|p: Vec<char>| p@).reverse(),
            out.len() == parts.len() - k,
            forall|j: int| 0 <= j < out.len() ==> #[trigger] out@[j]@ == rev[j],
        decreases k,
    {
        let piece = string_of(parts[k - 1].as_slice());
        out.push(piece);
        k -= 1;
    }
    assert(out.deep_view() =~= rev);
    out
}

/// Join strings with a separator.
pub fn join_strs(parts: &[String], sep: &str) -> (r: String)
    ensures
        r@ == join_with(parts.deep_view(), sep@),
{
    let mut r = String::new();
    let mut i: usize = 0;
    while i < parts.len()
        invariant
            i <= parts.len(),
            r@ == join_with(parts.deep_view().take(i as int), sep@),
        decreases parts.len() - i,
    {
        let ghost before = r@;
        if i > 0 {
            r.append(sep);
        }
        r.append(parts[i].as_str());
        assert(parts.deep_view().take(i + 1).drop_last() =~= parts.deep_view().take(i as int));
        i += 1;
    }
    assert(parts.deep_view().take(parts.len() as int) =~= parts.deep_view());
    r
}

/// Lowercase hexadecimal digit of a nibble.
pub open spec fn hex_digit(v: int) -> char {
    if v < 10 {
        (('0' as int) + v) as char
    } else {
        (('a' as int) + v - 10) as char
    }
}

/// `v` in exactly `width` lowercase hexadecimal digits (most significant
/// first; higher digits dropped).
pub open spec fn hex_fixed(v: nat, width: nat) -> Seq<char>
    decreases width,
{
    if width == 0 {
        Seq::empty()
    } else {
        hex_fixed(v / 16, (width - 1) as nat).push(hex_digit((v % 16) as int))
    }
}

fn hex_char(v: u64) -> (c: char)
    requires
        v < 16,
    ensures
        c == hex_digit(v as int),
{
    let digits: [char; 16] = ['0', '1', '2', '3', '4', '5', '6', '7', '8', '9', 'a', 'b', 'c', 'd', 'e', 'f'];
    let c = digits[v as usize];
    assert(c == hex_digit(v as int));
    c
}

/// Fixed-width lowercase hex.
pub fn to_hex(v: u64, width: usize) -> (s: String)
    requires
        width <= 16,
    ensures
        s@ == hex_fixed(v as nat, width as nat),
        s@.len() == width,
{
    let mut digits: Vec<char> = Vec::new();
    let mut k: usize = 0;
    let mut rest: u64 = v;
    // digits are produced least significant first
    while k < width
        invariant
            k <= width <= 16,
            digits.len() == k,
            hex_fixed(v as nat, width as nat) == hex_fixed(rest as nat, (width - k) as nat) + digits@.reverse(),
        decreases width - k,
    {
        let d = rest % 16;
        let c = hex_char(d);
        let ghost old_digits = digits@;
        digits.push(c);
        assert(hex_fixed(rest as nat, (width - k) as nat) == hex_fixed((rest / 16) as nat, (width - k - 1) as nat).push(hex_digit(d as int)));
        assert(digits@.reverse() =~= seq![c] + old_digits.reverse());
        assert(hex_fixed((rest / 16) as nat, (width - k - 1) as nat).push(c) + old_digits.reverse()
            =~= hex_fixed((rest / 16) as nat, (width - k - 1) as nat) + (seq![c] + old_digits.reverse()));
        rest = rest / 16;
        k += 1;
    }
    assert(hex_fixed(rest as nat, 0) + digits@.reverse() =~= digits@.reverse());
    let mut out: Vec<char> = Vec::new();
    let mut j: usize = digits.len();
    while j > 0
        invariant
            j <= digits.len(),
            out@ == digits@.reverse().take((digits.len() - j) as int),
        decreases j,
    {
        out.push(digits[j - 1]);
        j -= 1;
        assert(out@ =~= digits@.reverse().take((digits.len() - j) as int));
    }
    assert(out@ =~= digits@.reverse());
    string_of(out.as_slice())
}

// ---------------------------------------------------------------------------
// Prefixes, suffixes, occurrences
// ---------------------------------------------------------------------------

/// Does `p` occur in `s` at position `k`?
pub open spec fn occurs_at(s: Seq<char>, p: Seq<char>, k: int) -> bool {
    0 <= k && k + p.len() <= s.len() && s.subrange(k, k + p.len()) == p
}

pub open spec fn has_prefix(s: Seq<char>, p: Seq<char>) -> bool {
    occurs_at(s, p, 0)
}

pub open spec fn has_suffix(s: Seq<char>, p: Seq<char>) -> bool {
    occurs_at(s, p, s.len() - p.len())
}

/// The first position at or after `k` where `p` occurs.
pub open spec fn find_from(s: Seq<char>, p: Seq<char>, k: int) -> Option<int>
    decreases s.len() + 1 - k,
{
    if k < 0 || k + p.len() > s.len() {
        None
    } else if occurs_at(s, p, k) {
        Some(k)
    } else {
        find_from(s, p, k + 1)
    }
}

pub open spec fn contains_seq(s: Seq<char>, p: Seq<char>) -> bool {
    find_from(s, p, 0) is Some
}

/// Does `p` occur in `cs` at `k`? (characters)
pub fn occurs_at_exec(cs: &[char], p: &[char], k: usize) -> (r: bool)
    ensures
        r == occurs_at(cs@, p@, k as int),
{
    if k > cs.len() || p.len() > cs.len() - k {
        return false;
    }
    let mut i: usize = 0;
    while i < p.len()
        invariant
            i <= p.len(),
            k + p.len() <= cs.len(),
            forall|x: int| 0 <= x < i ==> cs@[k + x] == p@[x],
        decreases p.len() - i,
    {
        if cs[k + i] != p[i] {
            assert(cs@.subrange(k as int, k + p.len())[i as int] != p@[i as int]);
            return false;
        }
        i += 1;
    }
    assert(cs@.subrange(k as int, k + p.len()) =~= p@);
    true
}

/// The first occurrence of `p` in `cs` at or after `from`.
pub fn find_chars(cs: &[char], p: &[char], from: usize) -> (r: Option<usize>)
    ensures
        match r {
            Some(k) => find_from(cs@, p@, from as int) == Some(k as int),
            None => find_from(cs@, p@, from as int) is None,
        },
{
    let mut k = from;
    while k <= cs.len() && p.len() <= cs.len() - k
        invariant
            from <= k,
            find_from(cs@, p@, from as int) == find_from(cs@, p@, k as int),
        decreases cs.len() + 1 - k,
    {
        if occurs_at_exec(cs, p, k) {
            return Some(k);
        }
        if p.len() == 0 {
            assert(cs@.subrange(k as int, k as int) =~= p@);
        }
        k += 1;
    }
    None
}

pub fn starts_with(s: &str, p: &str) -> (r: bool)
    ensures
        r == has_prefix(s@, p@),
{
    let cs = chars_of(s);
    let ps = chars_of(p);
    occurs_at_exec(cs.as_slice(), ps.as_slice(), 0)
}

pub fn ends_with(s: &str, p: &str) -> (r: bool)
    ensures
        r == has_suffix(s@, p@),
{
    let cs = chars_of(s);
    let ps = chars_of(p);
    if ps.len() > cs.len() {
        return false;
    }
    occurs_at_exec(cs.as_slice(), ps.as_slice(), cs.len() - ps.len())
}

pub fn contains_str(s: &str, p: &str) -> (r: bool)
    ensures
        r == contains_seq(s@, p@),
{
    let cs = chars_of(s);
    let ps = chars_of(p);
    find_chars(cs.as_slice(), ps.as_slice(), 0).is_some()
}

// ---------------------------------------------------------------------------
// Case and whitespace
// ---------------------------------------------------------------------------

/// ASCII lowercase of one character; everything else unchanged.
pub open spec fn ascii_lower(c: char) -> char {
    if 'A' <= c <= 'Z' {
        ((c as u32) + 32) as char
    } else {
        c
    }
}

pub open spec fn ascii_lower_seq(s: Seq<char>) -> Seq<char> {
    s.map_values(|c: char| ascii_lower(c))
}

pub fn ascii_lower_char(c: char) -> (r: char)
    ensures
        r == ascii_lower(c),
{
    if 'A' <= c && c <= 'Z' {
        let v = (c as u32) + 32;
        let r = char_from_ascii(v);
        r
    } else {
        c
    }
}

fn char_from_ascii(v: u32) -> (c: char)
    requires
        ('a' as u32) <= v <= ('z' as u32),
    ensures
        c == v as char,
{
    let letters: [char; 26] = ['a', 'b', 'c', 'd', 'e', 'f', 'g', 'h', 'i', 'j', 'k', 'l', 'm', 'n',
        'o', 'p', 'q', 'r', 's', 't', 'u', 'v', 'w', 'x', 'y', 'z'];
    let c = letters[(v - 97) as usize];
    assert(c == v as char);
    c
}

/// The ASCII-lowercased characters of `s` (what `str::to_ascii_lowercase`
/// gives).
pub fn to_ascii_lower(s: &str) -> (r: Vec<char>)
    ensures
        r@ == ascii_lower_seq(s@),
{
    let cs = chars_of(s);
    let mut out: Vec<char> = Vec::new();
    let mut i: usize = 0;
    while i < cs.len()
        invariant
            i <= cs.len(),
            cs@ == s@,
            out.len() == i,
            forall|x: int| 0 <= x < i ==> out@[x] == ascii_lower(cs@[x]),
        decreases cs.len() - i,
    {
        out.push(ascii_lower_char(cs[i]));
        i += 1;
    }
    assert(out@ =~= ascii_lower_seq(s@));
    out
}

/// `s` equal to `t` ignoring ASCII case.
pub open spec fn eq_ignore_ascii_case(s: Seq<char>, t: Seq<char>) -> bool {
    ascii_lower_seq(s) == ascii_lower_seq(t)
}

pub fn eq_ignore_case(s: &str, t: &str) -> (r: bool)
    ensures
        r == eq_ignore_ascii_case(s@, t@),
{
    let a = to_ascii_lower(s);
    let b = to_ascii_lower(t);
    if a.len() != b.len() {
        return false;
    }
    let mut i: usize = 0;
    while i < a.len()
        invariant
            i <= a.len() == b.len(),
            a@ == ascii_lower_seq(s@),
            b@ == ascii_lower_seq(t@),
            forall|x: int| 0 <= x < i ==> a@[x] == b@[x],
        decreases a.len() - i,
    {
        if a[i] != b[i] {
            assert(a@[i as int] != b@[i as int]);
            return false;
        }
        i += 1;
    }
    assert(a@ =~= b@);
    true
}

/// Whether a character has the Unicode White_Space property (PropList):
/// U+0009 to U+000D, the space, U+0085, U+00A0, U+1680, U+2000 to U+200A,
/// U+2028, U+2029, U+202F, U+205F and U+3000. This is what
/// `char::is_whitespace` answers.
pub open spec fn unicode_whitespace(c: char) -> bool {
    let u = c as u32;
    (0x9 <= u && u <= 0xd) || u == 0x20 || u == 0x85 || u == 0xa0 || u == 0x1680 || (0x2000 <= u && u
        <= 0x200a) || u == 0x2028 || u == 0x2029 || u == 0x202f || u == 0x205f || u == 0x3000
}

/// The White_Space property of one character.
pub(crate) fn is_whitespace(c: char) -> (b: bool)
    ensures
        b == unicode_whitespace(c),
        (c as u32) < 128 ==> (b == (c == ' ' || ('\t' <= c && c <= '\r'))),
{
    let u = c as u32;
    (0x9 <= u && u <= 0xd) || u == 0x20 || u == 0x85 || u == 0xa0 || u == 0x1680 || (0x2000 <= u && u
        <= 0x200a) || u == 0x2028 || u == 0x2029 || u == 0x202f || u == 0x205f || u == 0x3000
}

/// Number of leading whitespace characters from `k` on.
pub open spec fn lead_ws(s: Seq<char>, k: int) -> int
    decreases s.len() - k,
{
    if 0 <= k < s.len() && unicode_whitespace(s[k]) {
        lead_ws(s, k + 1)
    } else {
        k
    }
}

/// The end of `s` once trailing whitespace down to `lo` is dropped.
pub open spec fn trail_end(s: Seq<char>, lo: int, e: int) -> int
    decreases e,
{
    if 0 <= lo < e && e <= s.len() && unicode_whitespace(s[e - 1]) {
        trail_end(s, lo, e - 1)
    } else {
        e
    }
}

/// `s` without leading and trailing whitespace (what `str::trim` gives).
pub open spec fn spec_trim(s: Seq<char>) -> Seq<char> {
    let lo = lead_ws(s, 0);
    s.subrange(lo, trail_end(s, lo, s.len() as int))
}

proof fn lemma_lead_ws_bounds(s: Seq<char>, k: int)
    requires
        0 <= k <= s.len(),
    ensures
        k <= lead_ws(s, k) <= s.len(),
    decreases s.len() - k,
{
    if k < s.len() && unicode_whitespace(s[k]) {
        lemma_lead_ws_bounds(s, k + 1);
    }
}

pub(crate) proof fn lemma_trail_end_bounds(s: Seq<char>, lo: int, e: int)
    requires
        0 <= lo <= e <= s.len(),
    ensures
        lo <= trail_end(s, lo, e) <= e,
    decreases e,
{
    if lo < e && unicode_whitespace(s[e - 1]) {
        lemma_trail_end_bounds(s, lo, e - 1);
    }
}

pub fn trim(s: &str) -> (r: String)
    ensures
        r@ == spec_trim(s@),
{
    let cs = chars_of(s);
    let mut lo: usize = 0;
    while lo < cs.len() && is_whitespace(cs[lo])
        invariant
            lo <= cs.len(),
            cs@ == s@,
            lead_ws(s@, 0) == lead_ws(s@, lo as int),
        decreases cs.len() - lo,
    {
        lo += 1;
    }
    let mut hi: usize = cs.len();
    while hi > lo && is_whitespace(cs[hi - 1])
        invariant
            lo <= hi <= cs.len(),
            cs@ == s@,
            lo == lead_ws(s@, 0),
            trail_end(s@, lo as int, s@.len() as int) == trail_end(s@, lo as int, hi as int),
        decreases hi,
    {
        hi -= 1;
    }
    string_of(&cs.as_slice()[lo..hi])
}

// ---------------------------------------------------------------------------
// Decimal numbers
// ---------------------------------------------------------------------------

/// The decimal digit for `v` (0 to 9).
pub open spec fn dec_digit(v: int) -> char {
    (('0' as int) + v) as char
}

/// `n` in decimal, without leading zeros (`0` for zero).
pub open spec fn dec_str(n: nat) -> Seq<char>
    decreases n,
{
    if n < 10 {
        seq![dec_digit(n as int)]
    } else {
        dec_str(n / 10).push(dec_digit((n % 10) as int))
    }
}

/// A signed integer in decimal, with `-` before a negative one.
pub open spec fn dec_int(i: int) -> Seq<char> {
    if i < 0 {
        seq!['-'] + dec_str((-i) as nat)
    } else {
        dec_str(i as nat)
    }
}

/// `v` in exactly `width` decimal digits, zero-padded (higher digits
/// dropped).
pub open spec fn dec_fixed(v: nat, width: nat) -> Seq<char>
    decreases width,
{
    if width == 0 {
        Seq::empty()
    } else {
        dec_fixed(v / 10, (width - 1) as nat).push(dec_digit((v % 10) as int))
    }
}

fn digit_char(v: u128) -> (c: char)
    requires
        v < 10,
    ensures
        c == dec_digit(v as int),
{
    let digits: [char; 10] = ['0', '1', '2', '3', '4', '5', '6', '7', '8', '9'];
    let c = digits[v as usize];
    assert(c == dec_digit(v as int));
    c
}

/// The characters of `cs` in reverse order, as a string.
fn string_of_rev(cs: &Vec<char>) -> (s: String)
    ensures
        s@ == cs@.reverse(),
{
    let mut out: Vec<char> = Vec::new();
    let mut j: usize = cs.len();
    while j > 0
        invariant
            j <= cs.len(),
            out@ == cs@.reverse().take((cs.len() - j) as int),
        decreases j,
    {
        out.push(cs[j - 1]);
        j -= 1;
        assert(out@ =~= cs@.reverse().take((cs.len() - j) as int));
    }
    assert(out@ =~= cs@.reverse());
    string_of(out.as_slice())
}

/// `n` in decimal.
pub fn to_decimal(n: u128) -> (s: String)
    ensures
        s@ == dec_str(n as nat),
{
    let mut digits: Vec<char> = Vec::new();
    let mut rest: u128 = n;
    while rest >= 10
        invariant
            dec_str(n as nat) == dec_str(rest as nat) + digits@.reverse(),
        decreases rest,
    {
        let c = digit_char(rest % 10);
        let ghost old_digits = digits@;
        digits.push(c);
        assert(digits@.reverse() =~= seq![c] + old_digits.reverse());
        assert(dec_str((rest / 10) as nat).push(c) + old_digits.reverse()
            =~= dec_str((rest / 10) as nat) + (seq![c] + old_digits.reverse()));
        rest = rest / 10;
    }
    let c = digit_char(rest);
    let ghost old_digits = digits@;
    digits.push(c);
    assert(digits@.reverse() =~= seq![c] + old_digits.reverse());
    string_of_rev(&digits)
}

/// A signed integer in decimal.
pub fn int_to_decimal(i: i64) -> (s: String)
    ensures
        s@ == dec_int(i as int),
{
    if i < 0 {
        let m: u128 = (0i128 - (i as i128)) as u128;
        assert(m as int == -(i as int));
        let d = to_decimal(m);
        proof {
            reveal_strlit("-");
        }
        concat_str("-", d.as_str())
    } else {
        to_decimal(i as u128)
    }
}

/// `v` zero-padded to `width` decimal digits.
pub fn to_decimal_fixed(v: u64, width: usize) -> (s: String)
    ensures
        s@ == dec_fixed(v as nat, width as nat),
        s@.len() == width,
{
    let mut digits: Vec<char> = Vec::new();
    let mut k: usize = 0;
    let mut rest: u128 = v as u128;
    while k < width
        invariant
            k <= width,
            digits.len() == k,
            dec_fixed(v as nat, width as nat) == dec_fixed(rest as nat, (width - k) as nat) + digits@.reverse(),
        decreases width - k,
    {
        let c = digit_char(rest % 10);
        let ghost old_digits = digits@;
        digits.push(c);
        assert(digits@.reverse() =~= seq![c] + old_digits.reverse());
        assert(dec_fixed((rest / 10) as nat, (width - k - 1) as nat).push(c) + old_digits.reverse()
            =~= dec_fixed((rest / 10) as nat, (width - k - 1) as nat) + (seq![c] + old_digits.reverse()));
        rest = rest / 10;
        k += 1;
    }
    assert(dec_fixed(rest as nat, 0) + digits@.reverse() =~= digits@.reverse());
    string_of_rev(&digits)
}

// ---------------------------------------------------------------------------
// Order
// ---------------------------------------------------------------------------

/// Lexicographic order on character sequences by code point, which is
/// also the byte order of their UTF-8 encodings.
pub open spec fn seq_less(a: Seq<char>, b: Seq<char>) -> bool
    decreases a.len(),
{
    if b.len() == 0 {
        false
    } else if a.len() == 0 {
        true
    } else if a[0] != b[0] {
        (a[0] as int) < (b[0] as int)
    } else {
        seq_less(a.drop_first(), b.drop_first())
    }
}

/// Is `a` before `b` in code-point order?
pub fn chars_less(a: &[char], b: &[char]) -> (r: bool)
    ensures
        r == seq_less(a@, b@),
{
    let mut i: usize = 0;
    assert(a@.skip(0) =~= a@);
    assert(b@.skip(0) =~= b@);
    while i < a.len() && i < b.len()
        invariant
            i <= a.len(),
            i <= b.len(),
            seq_less(a@, b@) == seq_less(a@.skip(i as int), b@.skip(i as int)),
        decreases a.len() - i,
    {
        assert(a@.skip(i as int)[0] == a@[i as int]);
        assert(b@.skip(i as int)[0] == b@[i as int]);
        if a[i] != b[i] {
            return a[i] < b[i];
        }
        assert(a@.skip(i as int).drop_first() =~= a@.skip(i + 1));
        assert(b@.skip(i as int).drop_first() =~= b@.skip(i + 1));
        i += 1;
    }
    i < b.len()
}

/// Is `a` before `b` in code-point order? (strings)
pub fn str_less(a: &str, b: &str) -> (r: bool)
    ensures
        r == seq_less(a@, b@),
{
    let x = chars_of(a);
    let y = chars_of(b);
    chars_less(x.as_slice(), y.as_slice())
}

/// `s` without trailing whitespace (what `str::trim_end` gives).
pub open spec fn spec_trim_end(s: Seq<char>) -> Seq<char> {
    s.subrange(0, trail_end(s, 0, s.len() as int))
}

pub fn trim_end(s: &str) -> (r: String)
    ensures
        r@ == spec_trim_end(s@),
{
    let cs = chars_of(s);
    let mut hi: usize = cs.len();
    while hi > 0 && is_whitespace(cs[hi - 1])
        invariant
            hi <= cs.len(),
            cs@ == s@,
            trail_end(s@, 0, s@.len() as int) == trail_end(s@, 0, hi as int),
        decreases hi,
    {
        hi -= 1;
    }
    string_of(&cs.as_slice()[0..hi])
}

/// `s` with every `c` removed.
pub open spec fn without_char(s: Seq<char>, c: char) -> Seq<char>
    decreases s.len(),
{
    if s.len() == 0 {
        s
    } else if s.last() == c {
        without_char(s.drop_last(), c)
    } else {
        without_char(s.drop_last(), c).push(s.last())
    }
}

pub fn remove_char(s: &str, c: char) -> (r: String)
    ensures
        r@ == without_char(s@, c),
{
    let cs = chars_of(s);
    let mut out: Vec<char> = Vec::new();
    let mut i: usize = 0;
    while i < cs.len()
        invariant
            i <= cs.len(),
            cs@ == s@,
            out@ == without_char(s@.take(i as int), c),
        decreases cs.len() - i,
    {
        assert(s@.take(i + 1).drop_last() =~= s@.take(i as int));
        if cs[i] != c {
            out.push(cs[i]);
        }
        i += 1;
    }
    assert(s@.take(cs.len() as int) =~= s@);
    string_of(out.as_slice())
}

/// The pieces of `parts`, each preceded by `pre`, run together.
pub open spec fn prefixed(parts: Seq<Seq<char>>, pre: Seq<char>) -> Seq<char>
    decreases parts.len(),
{
    if parts.len() == 0 {
        Seq::empty()
    } else {
        prefixed(parts.drop_last(), pre) + pre + parts.last()
    }
}

/// `s` with each `c` replaced by `r`.
pub open spec fn replace_char(s: Seq<char>, c: char, r: Seq<char>) -> Seq<char>
    decreases s.len(),
{
    if s.len() == 0 {
        s
    } else if s.last() == c {
        replace_char(s.drop_last(), c, r) + r
    } else {
        replace_char(s.drop_last(), c, r).push(s.last())
    }
}

pub fn replace_chars(s: &str, c: char, r: &str) -> (out: String)
    ensures
        out@ == replace_char(s@, c, r@),
{
    let cs = chars_of(s);
    let mut out = String::new();
    let mut i: usize = 0;
    while i < cs.len()
        invariant
            i <= cs.len(),
            cs@ == s@,
            out@ == replace_char(s@.take(i as int), c, r@),
        decreases cs.len() - i,
    {
        assert(s@.take(i + 1).drop_last() =~= s@.take(i as int));
        if cs[i] == c {
            out.append(r);
        } else {
            push_char(&mut out, cs[i]);
        }
        i += 1;
    }
    assert(s@.take(cs.len() as int) =~= s@);
    out
}

/// Code-point order is irreflexive and asymmetric.
pub proof fn lemma_seq_less_asym(a: Seq<char>, b: Seq<char>)
    ensures
        !seq_less(a, a),
        seq_less(a, b) ==> !seq_less(b, a),
    decreases a.len(),
{
    if a.len() > 0 {
        lemma_seq_less_asym(a.drop_first(), a.drop_first());
        if b.len() > 0 {
            lemma_seq_less_asym(a.drop_first(), b.drop_first());
        }
    }
}

/// Code-point order is transitive.
pub proof fn lemma_seq_less_trans(a: Seq<char>, b: Seq<char>, c: Seq<char>)
    requires
        seq_less(a, b),
        seq_less(b, c),
    ensures
        seq_less(a, c),
    decreases a.len(),
{
    if a.len() > 0 && b.len() > 0 && c.len() > 0 && a[0] == b[0] && b[0] == c[0] {
        lemma_seq_less_trans(a.drop_first(), b.drop_first(), c.drop_first());
    }
}

/// Code-point order is total.
pub proof fn lemma_seq_less_total(a: Seq<char>, b: Seq<char>)
    ensures
        a == b || seq_less(a, b) || seq_less(b, a),
    decreases a.len(),
{
    if a.len() == 0 && b.len() == 0 {
        assert(a =~= b);
    } else if a.len() > 0 && b.len() > 0 && a[0] == b[0] {
        lemma_seq_less_total(a.drop_first(), b.drop_first());
        if a.drop_first() == b.drop_first() {
            assert(a =~= seq![a[0]] + a.drop_first());
            assert(b =~= seq![b[0]] + b.drop_first());
        }
    } else if a.len() > 0 && b.len() > 0 {
        assert((a[0] as int) != (b[0] as int));
    }
}

/// `s` without leading and trailing whitespace, as a slice of `s`.
pub fn trim_slice<'a>(s: &'a str) -> (r: &'a str)
    ensures
        r@ == spec_trim(s@),
{
    let cs = chars_of(s);
    let mut lo: usize = 0;
    while lo < cs.len() && is_whitespace(cs[lo])
        invariant
            lo <= cs.len(),
            cs@ == s@,
            lead_ws(s@, 0) == lead_ws(s@, lo as int),
        decreases cs.len() - lo,
    {
        lo += 1;
    }
    let mut hi: usize = cs.len();
    while hi > lo && is_whitespace(cs[hi - 1])
        invariant
            lo <= hi <= cs.len(),
            cs@ == s@,
            lo == lead_ws(s@, 0),
            trail_end(s@, lo as int, s@.len() as int) == trail_end(s@, lo as int, hi as int),
        decreases hi,
    {
        hi -= 1;
    }
    s.substring_char(lo, hi)
}

/// What `str::to_lowercase` gives for these characters (Unicode's
/// lowercase mapping).
pub uninterp spec fn lowercase(s: Seq<char>) -> Seq<char>;

/// `str::to_lowercase`. Its result is named, not stated: the Unicode
/// lowercase mapping is a table.
#[verifier::external_body]
pub(crate) fn to_lowercase(s: &str) -> (r: String)
    ensures
        r@ == lowercase(s@),
{
    s.to_lowercase()
}

pub proof fn lemma_find_from_bounds(s: Seq<char>, p: Seq<char>, k: int)
    ensures
        find_from(s, p, k) is Some ==> k <= find_from(s, p, k)->Some_0 && find_from(s, p, k)->Some_0
            + p.len() <= s.len() && occurs_at(s, p, find_from(s, p, k)->Some_0),
    decreases s.len() + 1 - k,
{
    if !(k < 0 || k + p.len() > s.len()) && !occurs_at(s, p, k) {
        lemma_find_from_bounds(s, p, k + 1);
    }
}

} // verus!

