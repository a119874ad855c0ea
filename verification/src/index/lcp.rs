//! Longest common prefixes of neighbouring suffixes in a suffix array.

use vstd::prelude::*;

verus! {

/// The length of the longest common prefix of the suffixes at `i` and `j`.
pub open spec fn common_prefix_len(s: Seq<u8>, i: int, j: int) -> nat
    decreases s.len() - i,
{
    if 0 <= i < s.len() && 0 <= j < s.len() && s[i] == s[j] {
        1 + common_prefix_len(s, i + 1, j + 1)
    } else {
        0
    }
}

/// The longest common prefix of each suffix with its predecessor in `sa`,
/// by rank; 0 at rank 0.
pub open spec fn lcp_of(s: Seq<u8>, sa: Seq<usize>) -> Seq<usize> {
    Seq::new(
        sa.len(),
        |r: int|
            if r == 0 {
                0usize
            } else {
                common_prefix_len(s, sa[r] as int, sa[r - 1] as int) as usize
            },
    )
}

/// The common prefix of two suffixes, counted byte by byte.
pub fn common_prefix(s: &[u8], i: usize, j: usize) -> (k: usize)
    requires
        i <= s@.len(),
        j <= s@.len(),
    ensures
        k == common_prefix_len(s@, i as int, j as int),
        i + k <= s@.len(),
        j + k <= s@.len(),
{
    let n: usize = s.len();
    let mut k: usize = 0;
    while i + k < n && j + k < n && s[i + k] == s[j + k]
        invariant
            n == s@.len(),
            i + k <= n,
            j + k <= n,
            common_prefix_len(s@, i as int, j as int) == k + common_prefix_len(
                s@,
                i + k,
                j + k,
            ),
        decreases n - i - k,
    {
        k = k + 1;
    }
    k
}

/// The array of longest common prefixes for the suffix array `sa` of `s`.
pub fn kasai_lcp(s: &[u8], sa: &[usize]) -> (lcp: Vec<usize>)
    requires
        sa@.len() == s@.len(),
        forall|k: int| 0 <= k < sa@.len() ==> #[trigger] sa@[k] < s@.len(),
    ensures
        lcp@ == lcp_of(s@, sa@),
{
    let mut lcp: Vec<usize> = Vec::new();
    let mut r: usize = 0;
    while r < sa.len()
        invariant
            r <= sa@.len(),
            forall|k: int| 0 <= k < sa@.len() ==> #[trigger] sa@[k] < s@.len(),
            lcp@ == lcp_of(s@, sa@).take(r as int),
        decreases sa@.len() - r,
    {
        if r == 0 {
            lcp.push(0);
        } else {
            assert(sa@[r as int] < s@.len());
            assert(sa@[r - 1] < s@.len());
            lcp.push(common_prefix(s, sa[r], sa[r - 1]));
        }
        r = r + 1;
        proof {
            assert(lcp@ =~= lcp_of(s@, sa@).take(r as int));
        }
    }
    proof {
        assert(lcp@ =~= lcp_of(s@, sa@));
    }
    lcp
}

} // verus!
