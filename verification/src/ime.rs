//! The Japanese-first input-source policy: which mode the `--ime` flag
//! asks for, where the suspend marker of an external input-source guard
//! lives, and how the compiled input-source helper is named after its
//! source. Switching input sources is the caller's.
use vstd::prelude::*;
use crate::text::{str_eq, hex_fixed, to_hex};

verus! {

/// 64-bit FNV-1a of `data` (it only picks a cache file name).
pub open spec fn spec_fnv1a(data: Seq<u8>) -> u64
    decreases data.len(),
{
    if data.len() == 0 {
        0xcbf2_9ce4_8422_2325
    } else {
        (((spec_fnv1a(data.drop_last()) ^ (data.last() as u64)) as nat * 0x0000_0100_0000_01b3nat)
            % 0x1_0000_0000_0000_0000nat) as u64
    }
}

/// FNV-1a 64-bit.
pub fn fnv1a(data: &[u8]) -> (h: u64)
    ensures
        h == spec_fnv1a(data@),
{
    let mut hash: u64 = 0xcbf2_9ce4_8422_2325;
    let mut i: usize = 0;
    while i < data.len()
        invariant
            i <= data.len(),
            hash == spec_fnv1a(data@.take(i as int)),
        decreases data.len() - i,
    {
        assert(data@.take(i + 1).drop_last() =~= data@.take(i as int));
        hash = hash ^ (data[i] as u64);
        hash = hash.wrapping_mul(0x0000_0100_0000_01b3);
        i += 1;
    }
    assert(data@.take(data.len() as int) =~= data@);
    hash
}

/// `<prefix>-` and the low 32 bits of the source's FNV-1a in eight
/// lowercase hex digits.
pub open spec fn spec_bin_name(prefix: Seq<char>, src: Seq<char>) -> Seq<char> {
    prefix + seq!['-'] + hex_fixed(spec_fnv1a(vstd::utf8::encode_utf8(src)) as nat, 8)
}

/// The file name a helper compiled from `src` is cached under.
pub fn helper_name_for(prefix: &str, src: &str) -> (s: String)
    ensures
        s@ == spec_bin_name(prefix@, src@),
        s@.len() == prefix@.len() + 9,
{
    let h = fnv1a(src.as_bytes());
    let mut s = String::new();
    s.append(prefix);
    s.append("-");
    s.append(to_hex(h, 8).as_str());
    proof {
        reveal_strlit("-");
    }
    s
}

/// The input-source helper's file name for its source.
pub fn bin_name_for(src: &str) -> (s: String)
    ensures
        s@ == spec_bin_name("ime"@, src@),
{
    helper_name_for("ime", src)
}

/// `PathBuf::push` of a relative component: a separator in between unless
/// the base is empty or already ends in one.
pub open spec fn join_rel(base: Seq<char>, c: Seq<char>) -> Seq<char> {
    if base.len() == 0 || base.last() == '/' {
        base + c
    } else {
        base + seq!['/'] + c
    }
}

/// The suspend marker of an external input-source guard: the variable's
/// path when it is set and not empty, else `~/.cache/ime-guard.suspend`.
pub open spec fn spec_guard_path(home: Seq<char>, env: Option<Seq<char>>) -> Seq<char> {
    match env {
        Some(p) if p.len() > 0 => p,
        _ => join_rel(join_rel(home, ".cache"@), "ime-guard.suspend"@),
    }
}

fn join_path(base: &str, c: &str) -> (s: String)
    ensures
        s@ == join_rel(base@, c@),
{
    let mut s = crate::text::copy_str(base);
    let cs = crate::text::chars_of(base);
    if cs.len() > 0 && cs[cs.len() - 1] != '/' {
        s.append("/");
        proof {
            reveal_strlit("/");
        }
    }
    s.append(c);
    s
}

pub fn guard_suspend_path_from_env(home: &str, env: Option<&str>) -> (s: String)
    ensures
        s@ == spec_guard_path(
            home@,
            match env {
                Some(p) => Some(p@),
                None => None,
            },
        ),
{
    match env {
        Some(p) if !p.is_empty() => crate::text::copy_str(p),
        _ => {
            let cache = join_path(home, ".cache");
            join_path(cache.as_str(), "ime-guard.suspend")
        },
    }
}

/// `--ime <mode>`.
#[derive(Clone, Copy, PartialEq, Eq, Debug, Structural)]
pub enum ImeMode {
    /// No input-source control at all.
    Off,
    /// ASCII after the composer closes; typing state untouched while open.
    Ascii,
    /// Also switch to Japanese when the composer opens (the default).
    Jp,
}

impl ImeMode {
    /// `off`, `ascii`, and anything else is the Japanese-first default.
    pub fn parse(s: &str) -> (m: Self)
        ensures
            m == (if s@ == "off"@ {
                ImeMode::Off
            } else if s@ == "ascii"@ {
                ImeMode::Ascii
            } else {
                ImeMode::Jp
            }),
    {
        if str_eq(s, "off") {
            ImeMode::Off
        } else if str_eq(s, "ascii") {
            ImeMode::Ascii
        } else {
            ImeMode::Jp
        }
    }
}

} // verus!
