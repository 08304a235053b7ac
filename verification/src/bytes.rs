//! Byte-string helpers: occurrences and searches over `Seq<u8>`.
use vstd::prelude::*;

verus! {

/// Does `p` occur in `h` at position `k`?
pub open spec fn occurs_b(h: Seq<u8>, p: Seq<u8>, k: int) -> bool {
    0 <= k && k + p.len() <= h.len() && h.subrange(k, k + p.len()) == p
}

/// The first position at or after `k` where `p` occurs.
pub open spec fn find_b(h: Seq<u8>, p: Seq<u8>, k: int) -> Option<int>
    decreases h.len() + 1 - k,
{
    if k < 0 || k + p.len() > h.len() {
        None
    } else if occurs_b(h, p, k) {
        Some(k)
    } else {
        find_b(h, p, k + 1)
    }
}

/// The first position at or after `k` holding byte `b`.
pub open spec fn find_byte(h: Seq<u8>, b: u8, k: int) -> Option<int>
    decreases h.len() - k,
{
    if k < 0 || k >= h.len() {
        None
    } else if h[k] == b {
        Some(k)
    } else {
        find_byte(h, b, k + 1)
    }
}

pub proof fn lemma_find_b_bounds(h: Seq<u8>, p: Seq<u8>, k: int)
    ensures
        find_b(h, p, k) is Some ==> k <= find_b(h, p, k)->Some_0 && find_b(h, p, k)->Some_0 + p.len()
            <= h.len() && occurs_b(h, p, find_b(h, p, k)->Some_0),
    decreases h.len() + 1 - k,
{
    if !(k < 0 || k + p.len() > h.len()) && !occurs_b(h, p, k) {
        lemma_find_b_bounds(h, p, k + 1);
    }
}

pub proof fn lemma_find_byte_bounds(h: Seq<u8>, b: u8, k: int)
    ensures
        find_byte(h, b, k) is Some ==> k <= find_byte(h, b, k)->Some_0 < h.len() && h[find_byte(
            h,
            b,
            k,
        )->Some_0] == b,
    decreases h.len() - k,
{
    if 0 <= k < h.len() && h[k] != b {
        lemma_find_byte_bounds(h, b, k + 1);
    }
}

/// Does `p` occur in `h` at `k`?
pub fn occurs_at_b(h: &[u8], p: &[u8], k: usize) -> (r: bool)
    ensures
        r == occurs_b(h@, p@, k as int),
{
    if k > h.len() || p.len() > h.len() - k {
        return false;
    }
    let mut i: usize = 0;
    while i < p.len()
        invariant
            i <= p.len(),
            k + p.len() <= h.len(),
            forall|x: int| 0 <= x < i ==> h@[k + x] == p@[x],
        decreases p.len() - i,
    {
        if h[k + i] != p[i] {
            assert(h@.subrange(k as int, k + p.len())[i as int] != p@[i as int]);
            return false;
        }
        i += 1;
    }
    assert(h@.subrange(k as int, k + p.len()) =~= p@);
    true
}

/// The first occurrence of `p` in `h` at or after `from`.
pub fn find_bytes(h: &[u8], p: &[u8], from: usize) -> (r: Option<usize>)
    ensures
        match r {
            Some(k) => find_b(h@, p@, from as int) == Some(k as int),
            None => find_b(h@, p@, from as int) is None,
        },
{
    let mut k = from;
    while k <= h.len() && p.len() <= h.len() - k
        invariant
            from <= k,
            find_b(h@, p@, from as int) == find_b(h@, p@, k as int),
        decreases h.len() + 1 - k,
    {
        if occurs_at_b(h, p, k) {
            return Some(k);
        }
        if p.len() == 0 {
            assert(h@.subrange(k as int, k as int) =~= p@);
        }
        k += 1;
    }
    None
}

/// The first position at or after `from` holding `b`.
pub fn find_byte_from(h: &[u8], b: u8, from: usize) -> (r: Option<usize>)
    ensures
        match r {
            Some(k) => find_byte(h@, b, from as int) == Some(k as int),
            None => find_byte(h@, b, from as int) is None,
        },
{
    let mut k = from;
    while k < h.len()
        invariant
            from <= k,
            find_byte(h@, b, from as int) == find_byte(h@, b, k as int),
        decreases h.len() - k,
    {
        if h[k] == b {
            return Some(k);
        }
        k += 1;
    }
    None
}

/// The bytes of `v` from `from` to `to`.
pub fn sub_bytes(v: &[u8], from: usize, to: usize) -> (r: Vec<u8>)
    requires
        from <= to <= v.len(),
    ensures
        r@ == v@.subrange(from as int, to as int),
{
    let mut r: Vec<u8> = Vec::new();
    let mut i = from;
    while i < to
        invariant
            from <= i <= to <= v.len(),
            r@ == v@.subrange(from as int, i as int),
        decreases to - i,
    {
        r.push(v[i]);
        i += 1;
        assert(r@ =~= v@.subrange(from as int, i as int));
    }
    r
}

} // verus!
