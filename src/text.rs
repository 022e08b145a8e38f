use vstd::prelude::*;
use vstd::string::*;

verus! {

/// `p` occurs in `s` as a contiguous run of characters.
pub open spec fn occurs_in(p: Seq<char>, s: Seq<char>) -> bool {
    exists|i: int| 0 <= i && i + p.len() <= s.len() && #[trigger] s.subrange(i, i + p.len()) == p
}

/// Whether `s` starts with `p` at character position `at`.
fn matches_at(s: &str, p: &str, at: usize, s_len: usize, p_len: usize) -> (r: bool)
    requires
        s_len == s@.len(),
        p_len == p@.len(),
        at + p_len <= s_len,
    ensures
        r == (s@.subrange(at as int, at + p_len) == p@),
{
    let mut j: usize = 0;
    while j < p_len
        invariant
            s_len == s@.len(),
            p_len == p@.len(),
            at + p_len <= s_len,
            j <= p_len,
            forall|k: int| 0 <= k < j ==> s@[at + k] == p@[k],
        decreases p_len - j,
    {
        if s.get_char(at + j) != p.get_char(j) {
            assert(s@.subrange(at as int, at + p_len)[j as int] != p@[j as int]);
            return false;
        }
        j = j + 1;
    }
    assert(s@.subrange(at as int, at + p_len) =~= p@);
    true
}

/// Substring search: whether `p` occurs anywhere in `s`.
pub fn contains_text(s: &str, p: &str) -> (r: bool)
    ensures
        r == occurs_in(p@, s@),
{
    let s_len = s.unicode_len();
    let p_len = p.unicode_len();
    if p_len > s_len {
        return false;
    }
    let mut at: usize = 0;
    loop
        invariant
            s_len == s@.len(),
            p_len == p@.len(),
            p_len <= s_len,
            at <= s_len - p_len,
            forall|i: int| 0 <= i < at ==> #[trigger] s@.subrange(i, i + p_len) != p@,
        decreases s_len - p_len - at,
    {
        if matches_at(s, p, at, s_len, p_len) {
            return true;
        }
        if at == s_len - p_len {
            return false;
        }
        at = at + 1;
    }
}

} // verus!
