//! Small verified helpers on character sequences.
use vstd::prelude::*;

verus! {

/// `p` is a prefix of `s`.
pub open spec fn is_prefix_of(p: Seq<char>, s: Seq<char>) -> bool {
    p.len() <= s.len() && s.subrange(0, p.len() as int) == p
}

/// `p` is a suffix of `s`.
pub open spec fn is_suffix_of(p: Seq<char>, s: Seq<char>) -> bool {
    p.len() <= s.len() && s.subrange(s.len() - p.len(), s.len() as int) == p
}

/// Whether `s` starts with `p`.
pub fn starts_with(s: &str, p: &str) -> (r: bool)
    ensures
        r == is_prefix_of(p@, s@),
{
    let n = s.unicode_len();
    let m = p.unicode_len();
    if m > n {
        return false;
    }
    let mut i: usize = 0;
    while i < m
        invariant
            m == p@.len(),
            n == s@.len(),
            m <= n,
            i <= m,
            forall|j: int| 0 <= j < i ==> s@[j] == p@[j],
        decreases m - i,
    {
        if s.get_char(i) != p.get_char(i) {
            assert(s@.subrange(0, m as int)[i as int] != p@[i as int]);
            return false;
        }
        i = i + 1;
    }
    assert(s@.subrange(0, m as int) =~= p@);
    true
}

/// Whether `s` ends with `p`.
pub fn ends_with(s: &str, p: &str) -> (r: bool)
    ensures
        r == is_suffix_of(p@, s@),
{
    let n = s.unicode_len();
    let m = p.unicode_len();
    if m > n {
        return false;
    }
    let off = n - m;
    let mut i: usize = 0;
    while i < m
        invariant
            m == p@.len(),
            n == s@.len(),
            m <= n,
            off == n - m,
            i <= m,
            forall|j: int| 0 <= j < i ==> s@[off + j] == p@[j],
        decreases m - i,
    {
        if s.get_char(off + i) != p.get_char(i) {
            assert(s@.subrange(off as int, n as int)[i as int] != p@[i as int]);
            return false;
        }
        i = i + 1;
    }
    assert(s@.subrange(off as int, n as int) =~= p@);
    true
}

/// The rest of `s` after the prefix `p`, if `s` starts with `p`.
pub fn strip_prefix<'a>(s: &'a str, p: &str) -> (r: Option<&'a str>)
    ensures
        r matches Some(rest) ==> is_prefix_of(p@, s@) && rest@ == s@.subrange(
            p@.len() as int,
            s@.len() as int,
        ),
        r is None <==> !is_prefix_of(p@, s@),
{
    if starts_with(s, p) {
        let n = s.unicode_len();
        let m = p.unicode_len();
        Some(s.substring_char(m, n))
    } else {
        None
    }
}

} // verus!
