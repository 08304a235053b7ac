//! The image on the clipboard, as a file: how its bytes are recognised as
//! a picture, how a scratch file is told from the user's own, and why no
//! image came out. Asking the operating system is the caller's.
use vstd::prelude::*;
use crate::text::{split_on, split_str, str_eq};

verus! {

/// Why no image came out.
#[derive(Debug, PartialEq, Eq)]
pub enum Reason {
    /// Nothing on the clipboard is an image.
    NoImage,
    /// macOS: the helper is still being compiled (first use). Try again.
    HelperBuilding,
    /// macOS: no `swiftc`, so the helper cannot be built.
    NoSwiftc,
    /// Linux: neither `wl-paste` nor `xclip` answered.
    NoTool,
    /// Something else, in words.
    Other(String),
}

/// The eight-byte PNG signature.
pub open spec fn png_signature() -> Seq<u8> {
    seq![0x89u8, 0x50u8, 0x4eu8, 0x47u8, 0x0du8, 0x0au8, 0x1au8, 0x0au8]
}

/// Do these bytes start with the PNG signature?
pub fn is_png(bytes: &[u8]) -> (b: bool)
    ensures
        b == (bytes@.len() >= 8 && bytes@.subrange(0, 8) == png_signature()),
{
    let sig: Vec<u8> = vec![0x89u8, 0x50u8, 0x4eu8, 0x47u8, 0x0du8, 0x0au8, 0x1au8, 0x0au8];
    assert(sig@ =~= png_signature());
    crate::bytes::occurs_at_b(bytes, sig.as_slice(), 0)
}

/// The components of a path as `Path::components` reads them: the root
/// (written `/`) when the path is absolute, a leading `.` when it starts
/// with one, then every piece between separators that is neither empty
/// nor `.`.
pub open spec fn path_components(p: Seq<char>) -> Seq<Seq<char>> {
    let lead: Seq<Seq<char>> = if p.len() > 0 && p[0] == '/' {
        seq![seq!['/']]
    } else if p == seq!['.'] || (p.len() >= 2 && p[0] == '.' && p[1] == '/') {
        seq![seq!['.']]
    } else {
        Seq::empty()
    };
    lead + normal_parts(split_on(p, '/'))
}

/// The pieces that are neither empty nor `.`.
pub open spec fn normal_parts(ps: Seq<Seq<char>>) -> Seq<Seq<char>>
    decreases ps.len(),
{
    if ps.len() == 0 {
        Seq::empty()
    } else if ps.last().len() == 0 || ps.last() == seq!['.'] {
        normal_parts(ps.drop_last())
    } else {
        normal_parts(ps.drop_last()).push(ps.last())
    }
}

/// `path` lies under `dir`: its components start with all of `dir`'s.
pub open spec fn spec_is_scratch(path: Seq<char>, dir: Seq<char>) -> bool {
    let pc = path_components(path);
    let dc = path_components(dir);
    dc.len() <= pc.len() && pc.subrange(0, dc.len() as int) == dc
}

/// The pieces of `p` between separators that are neither empty nor `.`.
fn normal_components(p: &str) -> (c: Vec<String>)
    ensures
        c.deep_view() == normal_parts(split_on(p@, '/')),
{
    proof {
        reveal_strlit(".");
    }
    let pieces = split_str(p, '/');
    let ghost ps = pieces.deep_view();
    let mut out: Vec<String> = Vec::new();
    let mut i: usize = 0;
    while i < pieces.len()
        invariant
            i <= pieces.len(),
            ps == pieces.deep_view(),
            "."@ == seq!['.'],
            out.deep_view() == normal_parts(ps.take(i as int)),
        decreases pieces.len() - i,
    {
        assert(ps.take(i + 1).drop_last() =~= ps.take(i as int));
        assert(ps.take(i + 1).last() == pieces[i as int]@);
        let piece = pieces[i].as_str();
        if !piece.is_empty() && !str_eq(piece, ".") {
            let ghost before = out.deep_view();
            out.push(crate::text::copy_str(piece));
            assert(out.deep_view() =~= before.push(piece@));
        }
        i += 1;
    }
    assert(ps.take(pieces.len() as int) =~= ps);
    out
}

fn components(p: &str) -> (c: Vec<String>)
    ensures
        c.deep_view() == path_components(p@),
{
    let cs = crate::text::chars_of(p);
    let mut out: Vec<String> = Vec::new();
    if cs.len() > 0 && cs[0] == '/' {
        out.push(crate::text::string_of(&cs.as_slice()[0..1]));
        assert(cs@.subrange(0, 1) =~= seq!['/']);
    } else if (cs.len() == 1 && cs[0] == '.') || (cs.len() >= 2 && cs[0] == '.' && cs[1] == '/') {
        out.push(crate::text::string_of(&cs.as_slice()[0..1]));
        assert(cs@.subrange(0, 1) =~= seq!['.']);
        if cs.len() == 1 {
            assert(p@ =~= seq!['.']);
        }
    } else {
        proof {
            if p@ == seq!['.'] {
                assert(cs@[0] == '.');
            }
        }
    }
    let ghost lead = out.deep_view();
    let rest = normal_components(p);
    let ghost r = rest.deep_view();
    let mut i: usize = 0;
    while i < rest.len()
        invariant
            i <= rest.len(),
            r == rest.deep_view(),
            out.deep_view() == lead + r.take(i as int),
        decreases rest.len() - i,
    {
        let ghost before = out.deep_view();
        out.push(crate::text::copy_str(rest[i].as_str()));
        assert(out.deep_view() =~= before.push(r[i as int]));
        i += 1;
        assert(out.deep_view() =~= lead + r.take(i as int));
    }
    assert(r.take(rest.len() as int) =~= r);
    out
}

/// Whether `path` is a file written under the scratch `dir` (and may be
/// thrown away once uploaded), as opposed to the user's own file: the
/// component-wise `Path::starts_with`.
pub fn is_scratch(path: &str, dir: &str) -> (b: bool)
    ensures
        b == spec_is_scratch(path@, dir@),
{
    let pc = components(path);
    let dc = components(dir);
    if dc.len() > pc.len() {
        return false;
    }
    let mut i: usize = 0;
    while i < dc.len()
        invariant
            i <= dc.len() <= pc.len(),
            pc.deep_view() == path_components(path@),
            dc.deep_view() == path_components(dir@),
            forall|k: int| 0 <= k < i ==> pc.deep_view()[k] == dc.deep_view()[k],
        decreases dc.len() - i,
    {
        if !str_eq(pc[i].as_str(), dc[i].as_str()) {
            assert(pc.deep_view().subrange(0, dc.len() as int)[i as int] != dc.deep_view()[i as int]);
            return false;
        }
        i += 1;
    }
    assert(pc.deep_view().subrange(0, dc.len() as int) =~= dc.deep_view());
    true
}

/// The clipboard helper's file name for its source.
pub fn pbimage_bin_name(src: &str) -> (s: String)
    ensures
        s@ == crate::ime::spec_bin_name("pbimage"@, src@),
{
    crate::ime::helper_name_for("pbimage", src)
}

} // verus!
