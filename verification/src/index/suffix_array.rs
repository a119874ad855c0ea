//! Suffix arrays: the starting offsets of all suffixes of a text, sorted by
//! the suffixes they start.

use vstd::prelude::*;

verus! {

/// Whether the suffix of `s` at `i` comes strictly before the suffix at `j`
/// in lexicographic order; a proper prefix comes before what it is a prefix of.
pub open spec fn suffix_lt(s: Seq<u8>, i: int, j: int) -> bool
    decreases s.len() - i,
{
    if i < 0 || j < 0 {
        false
    } else if i >= s.len() {
        j < s.len()
    } else if j >= s.len() {
        false
    } else if s[i] != s[j] {
        s[i] < s[j]
    } else {
        suffix_lt(s, i + 1, j + 1)
    }
}

/// `sa` holds every offset of `[0, n)` exactly once.
pub open spec fn is_permutation(sa: Seq<usize>, n: int) -> bool {
    &&& sa.len() == n
    &&& sa.no_duplicates()
    &&& forall|r: int| 0 <= r < sa.len() ==> #[trigger] sa[r] < n
}

/// The suffixes come in strictly ascending order in `sa`.
pub open spec fn suffixes_sorted(s: Seq<u8>, sa: Seq<usize>) -> bool {
    forall|a: int, b: int|
        0 <= a < b < sa.len() ==> suffix_lt(s, #[trigger] sa[a] as int, #[trigger] sa[b] as int)
}

/// The order of suffixes is transitive.
pub proof fn lemma_suffix_lt_transitive(s: Seq<u8>, i: int, j: int, k: int)
    requires
        suffix_lt(s, i, j),
        suffix_lt(s, j, k),
    ensures
        suffix_lt(s, i, k),
    decreases s.len() - i,
{
    if 0 <= i < s.len() && 0 <= j < s.len() && 0 <= k < s.len() && s[i] == s[j] && s[j] == s[k] {
        lemma_suffix_lt_transitive(s, i + 1, j + 1, k + 1);
    }
}

/// Of two suffixes at different offsets one comes before the other.
pub proof fn lemma_suffix_lt_connected(s: Seq<u8>, i: int, j: int)
    requires
        0 <= i <= s.len(),
        0 <= j <= s.len(),
        i != j,
    ensures
        suffix_lt(s, i, j) || suffix_lt(s, j, i),
    decreases s.len() - i,
{
    if i < s.len() && j < s.len() && s[i] == s[j] {
        lemma_suffix_lt_connected(s, i + 1, j + 1);
    }
}

/// Compares two suffixes byte by byte.
pub fn suffix_less(s: &[u8], i: usize, j: usize) -> (r: bool)
    requires
        i <= s@.len(),
        j <= s@.len(),
    ensures
        r == suffix_lt(s@, i as int, j as int),
{
    let n: usize = s.len();
    let mut a: usize = i;
    let mut b: usize = j;
    loop
        invariant
            n == s@.len(),
            a <= n,
            b <= n,
            suffix_lt(s@, i as int, j as int) == suffix_lt(s@, a as int, b as int),
        decreases n - a,
    {
        if a >= n {
            return b < n;
        }
        if b >= n {
            return false;
        }
        if s[a] != s[b] {
            return s[a] < s[b];
        }
        a = a + 1;
        b = b + 1;
    }
}

/// The number of suffixes of `sa` that come before the suffix at `i`, by
/// binary search.
fn insertion_point(s: &[u8], sa: &Vec<usize>, i: usize) -> (p: usize)
    requires
        i <= s@.len(),
        suffixes_sorted(s@, sa@),
        forall|r: int| 0 <= r < sa@.len() ==> #[trigger] sa@[r] < i,
    ensures
        p <= sa@.len(),
        forall|r: int| 0 <= r < p ==> suffix_lt(s@, #[trigger] sa@[r] as int, i as int),
        forall|r: int| p <= r < sa@.len() ==> suffix_lt(s@, i as int, #[trigger] sa@[r] as int),
{
    let mut lo: usize = 0;
    let mut hi: usize = sa.len();
    while lo < hi
        invariant
            lo <= hi <= sa@.len(),
            i <= s@.len(),
            suffixes_sorted(s@, sa@),
            forall|r: int| 0 <= r < sa@.len() ==> #[trigger] sa@[r] < i,
            forall|r: int| 0 <= r < lo ==> suffix_lt(s@, #[trigger] sa@[r] as int, i as int),
            forall|r: int| hi <= r < sa@.len() ==> suffix_lt(s@, i as int, #[trigger] sa@[r] as int),
        decreases hi - lo,
    {
        let mid: usize = lo + (hi - lo) / 2;
        assert(sa@[mid as int] < i);
        if suffix_less(s, sa[mid], i) {
            proof {
                assert forall|r: int| 0 <= r < mid + 1 implies suffix_lt(
                    s@,
                    #[trigger] sa@[r] as int,
                    i as int,
                ) by {
                    if r < mid {
                        lemma_suffix_lt_transitive(
                            s@,
                            sa@[r] as int,
                            sa@[mid as int] as int,
                            i as int,
                        );
                    }
                }
            }
            lo = mid + 1;
        } else {
            proof {
                lemma_suffix_lt_connected(s@, i as int, sa@[mid as int] as int);
                assert forall|r: int| mid <= r < sa@.len() implies suffix_lt(
                    s@,
                    i as int,
                    #[trigger] sa@[r] as int,
                ) by {
                    if mid < r {
                        lemma_suffix_lt_transitive(
                            s@,
                            i as int,
                            sa@[mid as int] as int,
                            sa@[r] as int,
                        );
                    }
                }
            }
            hi = mid;
        }
    }
    lo
}

/// The suffix array of `s`: all offsets of `s`, ordered by their suffixes.
pub fn build_sa(s: &[u8]) -> (sa: Vec<usize>)
    ensures
        is_permutation(sa@, s@.len() as int),
        suffixes_sorted(s@, sa@),
{
    let n: usize = s.len();
    let mut sa: Vec<usize> = Vec::new();
    let mut i: usize = 0;
    while i < n
        invariant
            i <= n,
            n == s@.len(),
            sa@.len() == i,
            sa@.no_duplicates(),
            forall|r: int| 0 <= r < sa@.len() ==> #[trigger] sa@[r] < i,
            suffixes_sorted(s@, sa@),
        decreases n - i,
    {
        let p = insertion_point(s, &sa, i);
        let ghost before = sa@;
        sa.insert(p, i);
        proof {
            let after = sa@;
            assert forall|a: int, b: int| 0 <= a < b < after.len() implies suffix_lt(
                s@,
                #[trigger] after[a] as int,
                #[trigger] after[b] as int,
            ) by {
                let a0 = if a < p { a } else { a - 1 };
                let b0 = if b < p { b } else { b - 1 };
                if a != p && b != p {
                    assert(after[a] == before[a0] && after[b] == before[b0]);
                } else if b == p {
                    assert(after[a] == before[a]);
                } else {
                    assert(after[b] == before[b - 1]);
                }
            }
            assert forall|a: int, b: int| 0 <= a < after.len() && 0 <= b < after.len() && a
                != b implies after[a] != after[b] by {
                let a0 = if a < p { a } else { a - 1 };
                let b0 = if b < p { b } else { b - 1 };
                if a != p && b != p {
                    assert(after[a] == before[a0] && after[b] == before[b0]);
                } else if a == p {
                    assert(after[b] == before[b0]);
                } else {
                    assert(after[a] == before[a0]);
                }
            }
            assert forall|r: int| 0 <= r < after.len() implies #[trigger] after[r] < i + 1 by {
                if r < p {
                    assert(after[r] == before[r]);
                } else if r > p {
                    assert(after[r] == before[r - 1]);
                }
            }
        }
        i = i + 1;
    }
    sa
}

} // verus!
