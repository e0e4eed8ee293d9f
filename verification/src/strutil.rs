//! Verified character-level string helpers: substring occurrence, stated over
//! the `Seq<char>` views of `&str` and `String`.

use vstd::prelude::*;
use vstd::string::*;

verus! {

/// The pattern `p` occurs in `s` starting at character position `i`.
pub open spec fn substr_at(s: Seq<char>, p: Seq<char>, i: int) -> bool {
    &&& 0 <= i
    &&& i + p.len() <= s.len()
    &&& s.subrange(i, i + p.len() as int) == p
}

/// The pattern `p` occurs somewhere in `s`.
pub open spec fn has_substr(s: Seq<char>, p: Seq<char>) -> bool {
    exists|i: int| substr_at(s, p, i)
}

/// A pointwise character match at position `i` is an occurrence.
proof fn lemma_pointwise_match(s: Seq<char>, p: Seq<char>, i: int)
    requires
        0 <= i,
        i + p.len() <= s.len(),
        forall|t: int| 0 <= t < p.len() ==> s[i + t] == p[t],
    ensures
        substr_at(s, p, i),
{
    assert(s.subrange(i, i + p.len() as int) =~= p);
}

/// Whatever a sequence is prefixed with occurs in the result at position 0.
pub proof fn lemma_prefix_is_substr(p: Seq<char>, rest: Seq<char>)
    ensures
        has_substr(p + rest, p),
{
    assert((p + rest).subrange(0, p.len() as int) =~= p);
    assert(substr_at(p + rest, p, 0));
}

/// Substring search over characters; decides `has_substr` on the views.
pub fn str_has_substr(s: &str, p: &str) -> (b: bool)
    ensures
        b == has_substr(s@, p@),
{
    let n: usize = s.unicode_len();
    let m: usize = p.unicode_len();
    if m == 0 {
        proof {
            assert(s@.subrange(0, 0) =~= p@);
            assert(substr_at(s@, p@, 0));
        }
        return true;
    }
    if m > n {
        proof {
            assert(forall|i: int| !substr_at(s@, p@, i));
        }
        return false;
    }
    let bound: usize = n - m;
    let mut i: usize = 0;
    while i <= bound
        invariant
            n == s@.len(),
            m == p@.len(),
            0 < m <= n,
            bound == n - m,
            i <= bound + 1,
            forall|k: int| 0 <= k < i ==> !substr_at(s@, p@, k),
        decreases bound + 1 - i,
    {
        let mut j: usize = 0;
        let mut matched: bool = true;
        while matched && j < m
            invariant
                n == s@.len(),
                m == p@.len(),
                i + m <= n,
                j <= m,
                matched ==> forall|t: int| 0 <= t < j ==> s@[i + t] == p@[t],
                !matched ==> !substr_at(s@, p@, i as int),
            decreases m - j + (if matched { 1int } else { 0int }),
        {
            if s.get_char(i + j) != p.get_char(j) {
                proof {
                    if substr_at(s@, p@, i as int) {
                        assert(s@.subrange(i as int, i + m as int)[j as int] == p@[j as int]);
                    }
                }
                matched = false;
            } else {
                j += 1;
            }
        }
        if matched {
            proof {
                lemma_pointwise_match(s@, p@, i as int);
            }
            return true;
        }
        i += 1;
    }
    proof {
        assert(forall|k: int| substr_at(s@, p@, k) ==> 0 <= k < i);
    }
    false
}

} // verus!
