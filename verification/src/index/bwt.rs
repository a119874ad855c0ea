//! The Burrows-Wheeler transform read off a suffix array.

use vstd::prelude::*;

verus! {

/// The byte that precedes offset `i` in the text read as a ring.
pub open spec fn preceding(s: Seq<u8>, i: int) -> u8 {
    if i == 0 {
        s[s.len() - 1]
    } else {
        s[i - 1]
    }
}

/// The transform of `s` under `sa`: for each rank the byte before its suffix.
pub open spec fn bwt_of(s: Seq<u8>, sa: Seq<usize>) -> Seq<u8> {
    Seq::new(sa.len(), |r: int| preceding(s, sa[r] as int))
}

/// The last rank whose suffix starts at offset 0, or 0 where there is none.
pub open spec fn primary_of(sa: Seq<usize>) -> int
    decreases sa.len(),
{
    if sa.len() == 0 {
        0
    } else if sa.last() == 0 {
        sa.len() - 1
    } else {
        primary_of(sa.drop_last())
    }
}

/// The transform of `s` and the rank of the whole text among its suffixes.
pub fn bwt_from_sa(s: &[u8], sa: &[usize]) -> (r: (Vec<u8>, usize))
    requires
        forall|k: int| 0 <= k < sa@.len() ==> #[trigger] sa@[k] < s@.len(),
    ensures
        r.0@ == bwt_of(s@, sa@),
        r.1 == primary_of(sa@),
{
    let n: usize = s.len();
    let mut bwt: Vec<u8> = Vec::new();
    let mut primary: usize = 0;
    let mut r: usize = 0;
    while r < sa.len()
        invariant
            r <= sa@.len(),
            n == s@.len(),
            forall|k: int| 0 <= k < sa@.len() ==> #[trigger] sa@[k] < s@.len(),
            bwt@ == bwt_of(s@, sa@.take(r as int)),
            primary == primary_of(sa@.take(r as int)),
        decreases sa@.len() - r,
    {
        let i: usize = sa[r];
        assert(sa@[r as int] < s@.len());
        if i == 0 {
            bwt.push(s[n - 1]);
            primary = r;
        } else {
            bwt.push(s[i - 1]);
        }
        r = r + 1;
        proof {
            assert(sa@.take(r as int).drop_last() =~= sa@.take(r - 1));
            assert(bwt@ =~= bwt_of(s@, sa@.take(r as int)));
        }
    }
    proof {
        assert(sa@.take(r as int) =~= sa@);
    }
    (bwt, primary)
}

} // verus!
