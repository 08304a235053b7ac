//! Which language the reader is addressed in.
//!
//! The choice is made once from what the reader said (a flag, this
//! program's own variable, the shell's locale) and then handed to whatever
//! speaks: both texts of a message live side by side at the call site.
use vstd::prelude::*;
use crate::text::{trim, spec_trim, to_ascii_lower, ascii_lower_seq, has_prefix, occurs_at_exec, str_eq};

verus! {

#[derive(Clone, Copy, Debug, PartialEq, Eq, Structural)]
pub enum Lang {
    Ja,
    En,
}

/// `j`, `a` and what may follow them in a Japanese locale name.
pub open spec fn ja_name() -> Seq<char> {
    seq!['j', 'a']
}

pub open spec fn says_japanese(l: Seq<char>) -> bool {
    l == ja_name() || has_prefix(l, seq!['j', 'a', '_']) || has_prefix(l, seq!['j', 'a', '-'])
        || has_prefix(l, seq!['j', 'a', 'p', 'a', 'n', 'e', 's', 'e'])
}

/// The language a locale string asks for: nothing when it is blank,
/// Japanese when it names Japanese (`ja`, `ja_JP.UTF-8`, `japanese…`, in
/// any ASCII case), English for everything else.
pub open spec fn spec_from_locale(s: Seq<char>) -> Option<Lang> {
    let t = spec_trim(s);
    if t.len() == 0 {
        None
    } else if says_japanese(ascii_lower_seq(t)) {
        Some(Lang::Ja)
    } else {
        Some(Lang::En)
    }
}

/// The value of `key` in an environment given as `(name, value)` pairs:
/// the first pair with that name.
pub open spec fn env_lookup(env: Seq<(Seq<char>, Seq<char>)>, key: Seq<char>, k: int) -> Option<Seq<char>>
    decreases env.len() - k,
{
    if k < 0 || k >= env.len() {
        None
    } else if env[k].0 == key {
        Some(env[k].1)
    } else {
        env_lookup(env, key, k + 1)
    }
}

pub open spec fn env_view(env: Seq<(String, String)>) -> Seq<(Seq<char>, Seq<char>)> {
    env.map_values(|p: (String, String)| (p.0@, p.1@))
}

/// What one variable says, if anything.
pub open spec fn var_says(env: Seq<(Seq<char>, Seq<char>)>, key: Seq<char>) -> Option<Lang> {
    match env_lookup(env, key, 0) {
        Some(v) => spec_from_locale(v),
        None => None,
    }
}

/// The reader's language: the flag, then `COSENSE_LANG`, `LC_ALL`,
/// `LC_MESSAGES` and `LANG`, the first that says something; English when
/// none does.
pub open spec fn spec_detect(explicit: Option<Seq<char>>, env: Seq<(Seq<char>, Seq<char>)>) -> Lang {
    let flag = match explicit {
        Some(e) => spec_from_locale(e),
        None => None,
    };
    if flag is Some {
        flag->Some_0
    } else if var_says(env, "COSENSE_LANG"@) is Some {
        var_says(env, "COSENSE_LANG"@)->Some_0
    } else if var_says(env, "LC_ALL"@) is Some {
        var_says(env, "LC_ALL"@)->Some_0
    } else if var_says(env, "LC_MESSAGES"@) is Some {
        var_says(env, "LC_MESSAGES"@)->Some_0
    } else if var_says(env, "LANG"@) is Some {
        var_says(env, "LANG"@)->Some_0
    } else {
        Lang::En
    }
}

impl Lang {
    /// Which language a locale string asks for. Anything that is not
    /// Japanese is answered in English.
    pub fn from_locale(s: &str) -> (r: Option<Lang>)
        ensures
            r == spec_from_locale(s@),
    {
        let t = trim(s);
        if t.as_str().is_empty() {
            return None;
        }
        let lower = to_ascii_lower(t.as_str());
        let ja: Vec<char> = vec!['j', 'a'];
        let ja_u: Vec<char> = vec!['j', 'a', '_'];
        let ja_d: Vec<char> = vec!['j', 'a', '-'];
        let japanese: Vec<char> = vec!['j', 'a', 'p', 'a', 'n', 'e', 's', 'e'];
        let exact = lower.len() == 2 && occurs_at_exec(lower.as_slice(), ja.as_slice(), 0);
        proof {
            if exact {
                assert(lower@.subrange(0, 2) =~= lower@);
            }
            if lower@ == ja_name() {
                assert(lower@.subrange(0, 2) =~= lower@);
            }
        }
        if exact || occurs_at_exec(lower.as_slice(), ja_u.as_slice(), 0)
            || occurs_at_exec(lower.as_slice(), ja_d.as_slice(), 0)
            || occurs_at_exec(lower.as_slice(), japanese.as_slice(), 0) {
            Some(Lang::Ja)
        } else {
            Some(Lang::En)
        }
    }

    /// The reader's language, in the order a reader would expect to be
    /// asked: the flag they just typed, then this program's own variable,
    /// then the locale the shell already carries.
    pub fn detect(explicit: Option<&str>, env: &[(String, String)]) -> (r: Lang)
        ensures
            r == spec_detect(
                match explicit {
                    Some(e) => Some(e@),
                    None => None,
                },
                env_view(env@),
            ),
    {
        if let Some(e) = explicit {
            if let Some(l) = Lang::from_locale(e) {
                return l;
            }
        }
        if let Some(l) = var_lang(env, "COSENSE_LANG") {
            return l;
        }
        if let Some(l) = var_lang(env, "LC_ALL") {
            return l;
        }
        if let Some(l) = var_lang(env, "LC_MESSAGES") {
            return l;
        }
        if let Some(l) = var_lang(env, "LANG") {
            return l;
        }
        Lang::En
    }
}

pub(crate) fn var_lang(env: &[(String, String)], key: &str) -> (r: Option<Lang>)
    ensures
        r == var_says(env_view(env@), key@),
{
    let ghost ev = env_view(env@);
    let mut k: usize = 0;
    while k < env.len()
        invariant
            k <= env.len(),
            ev == env_view(env@),
            env_lookup(ev, key@, 0) == env_lookup(ev, key@, k as int),
        decreases env.len() - k,
    {
        if str_eq(env[k].0.as_str(), key) {
            return Lang::from_locale(env[k].1.as_str());
        }
        k += 1;
    }
    None
}

} // verus!
