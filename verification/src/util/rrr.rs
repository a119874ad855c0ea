//! Rank over a sparse set of marked positions: the positions themselves,
//! sorted, and for every superblock of 512 bits the number of marks before it.

use crate::util::bytes::{
    lemma_u32s_at, lemma_u64_at, put_u32s, put_u64, read_u32s, read_u64, u32s_at, u32s_bytes,
    u64_at, LoadError,
};
use crate::util::varint::{leq_u64, lemma_sorted_ascending, sort_u64s};
use vstd::bytes::*;
use vstd::prelude::*;

verus! {

/// Each element is greater than the one before it.
pub open spec fn strictly_ascending(s: Seq<u32>) -> bool {
    forall|i: int, j: int| 0 <= i < j < s.len() ==> s[i] < s[j]
}

/// The number of elements of `s` that are less than `pos`.
pub open spec fn count_below(s: Seq<u32>, pos: int) -> nat
    decreases s.len(),
{
    if s.len() == 0 {
        0
    } else {
        count_below(s.drop_last(), pos) + if s.last() < pos {
            1nat
        } else {
            0nat
        }
    }
}

/// The number of superblock counts kept for `nbits` bits.
pub open spec fn super_len(nbits: int) -> int {
    (nbits + 511) / 512 + 1
}

/// What makes the three parts a valid structure: positions strictly
/// ascending and below `nbits`, and every superblock count equal to the
/// number of positions before the superblock's first bit.
pub open spec fn flags_valid(nbits: int, super_counts: Seq<u32>, ones: Seq<u32>) -> bool {
    &&& 0 <= nbits <= u32::MAX
    &&& strictly_ascending(ones)
    &&& forall|i: int| 0 <= i < ones.len() ==> #[trigger] ones[i] < nbits
    &&& super_counts.len() == super_len(nbits)
    &&& forall|i: int|
        0 <= i < super_counts.len() ==> #[trigger] super_counts[i] == count_below(ones, 512 * i)
}

/// The serialized form: `nbits`, the number of superblock counts, the counts,
/// the number of positions, the positions; all little-endian.
pub open spec fn flags_bytes(nbits: int, super_counts: Seq<u32>, ones: Seq<u32>) -> Seq<u8> {
    spec_u64_to_le_bytes(nbits as u64) + spec_u64_to_le_bytes(super_counts.len() as u64)
        + u32s_bytes(super_counts) + spec_u64_to_le_bytes(ones.len() as u64) + u32s_bytes(ones)
}

/// Where a split point separates the elements below `pos` from the others,
/// the split point is the number of elements below `pos`.
pub proof fn lemma_count_below_split(s: Seq<u32>, pos: int, lo: int)
    requires
        0 <= lo <= s.len(),
        forall|i: int| 0 <= i < lo ==> s[i] < pos,
        forall|i: int| lo <= i < s.len() ==> s[i] >= pos,
    ensures
        count_below(s, pos) == lo,
    decreases s.len(),
{
    if s.len() > 0 {
        let t = s.drop_last();
        if lo == s.len() {
            lemma_count_below_split(t, pos, lo - 1);
        } else {
            lemma_count_below_split(t, pos, lo);
        }
    }
}

pub proof fn lemma_count_below_bounds(s: Seq<u32>, a: int, b: int)
    requires
        a <= b,
    ensures
        count_below(s, a) <= count_below(s, b) <= s.len(),
        a <= 0 ==> count_below(s, a) == 0,
    decreases s.len(),
{
    if s.len() > 0 {
        lemma_count_below_bounds(s.drop_last(), a, b);
    }
}

/// The count grows from `pos` to `pos + 1` exactly where `pos` is an
/// element: a position is marked where the rank steps up behind it.
pub proof fn lemma_rank_step(s: Seq<u32>, pos: u32)
    ensures
        (count_below(s, pos + 1) > count_below(s, pos as int)) == s.contains(pos),
        count_below(s, pos as int) <= count_below(s, pos + 1),
    decreases s.len(),
{
    if s.len() > 0 {
        let t = s.drop_last();
        lemma_rank_step(t, pos);
        if t.contains(pos) {
            let i = choose|i: int| 0 <= i < t.len() && t[i] == pos;
            assert(s[i] == pos);
        }
        if s.last() == pos {
            assert(s[s.len() - 1] == pos);
        }
        if s.contains(pos) {
            let i = choose|i: int| 0 <= i < s.len() && s[i] == pos;
            if i < t.len() {
                assert(t[i] == pos);
            }
        }
    }
}

/// In a strictly ascending sequence the elements below `pos` come first.
pub proof fn lemma_count_below_prefix(s: Seq<u32>, pos: int)
    requires
        strictly_ascending(s),
    ensures
        forall|i: int| 0 <= i < count_below(s, pos) ==> s[i] < pos,
        forall|i: int| count_below(s, pos) <= i < s.len() ==> s[i] >= pos,
        count_below(s, pos) <= s.len(),
    decreases s.len(),
{
    if s.len() > 0 {
        let t = s.drop_last();
        lemma_count_below_prefix(t, pos);
        if s.last() < pos {
            assert forall|i: int| 0 <= i < t.len() implies t[i] < pos by {
                assert(t[i] == s[i]);
                assert(s[i] < s[s.len() - 1]);
            }
            lemma_count_below_split(t, pos, t.len() as int);
            assert forall|i: int| 0 <= i < count_below(s, pos) implies s[i] < pos by {
                if i < t.len() {
                    assert(t[i] == s[i]);
                }
            }
        } else {
            assert forall|i: int| 0 <= i < count_below(s, pos) implies s[i] < pos by {
                assert(t[i] == s[i]);
            }
            assert forall|i: int| count_below(s, pos) <= i < s.len() implies s[i] >= pos by {
                if i < t.len() {
                    assert(t[i] == s[i]);
                }
            }
        }
    }
}

/// A strictly ascending sequence has at least the index at every place.
pub proof fn lemma_ascending_index(s: Seq<u32>, i: int)
    requires
        strictly_ascending(s),
        0 <= i < s.len(),
    ensures
        s[i] >= i,
    decreases i,
{
    if i > 0 {
        lemma_ascending_index(s, i - 1);
    }
}

/// Where the structure stored at `at` ends, if the buffer holds all of it.
pub open spec fn flags_end(bytes: Seq<u8>, at: int) -> Option<int> {
    if at + 16 > bytes.len() {
        None
    } else {
        let ns = u64_at(bytes, at + 8) as int;
        if at + 16 + 4 * ns + 8 > bytes.len() {
            None
        } else {
            let no = u64_at(bytes, at + 16 + 4 * ns) as int;
            if at + 24 + 4 * ns + 4 * no > bytes.len() {
                None
            } else {
                Some(at + 24 + 4 * ns + 4 * no)
            }
        }
    }
}

/// The superblock counts of the structure stored at `at`.
pub open spec fn stored_super_counts(bytes: Seq<u8>, at: int) -> Seq<u32> {
    u32s_at(bytes, at + 16, u64_at(bytes, at + 8) as nat)
}

/// The positions of the structure stored at `at`.
pub open spec fn stored_ones(bytes: Seq<u8>, at: int) -> Seq<u32> {
    let ns = u64_at(bytes, at + 8) as int;
    u32s_at(bytes, at + 24 + 4 * ns, u64_at(bytes, at + 16 + 4 * ns) as nat)
}

/// Whether the structure stored at `at` is complete and valid.
pub open spec fn stored_valid(bytes: Seq<u8>, at: int) -> bool {
    flags_valid(u64_at(bytes, at) as int, stored_super_counts(bytes, at), stored_ones(bytes, at))
}

/// A structure is read back where its stored form stands.
pub proof fn lemma_flags_stored(
    pre: Seq<u8>,
    nbits: int,
    super_counts: Seq<u32>,
    ones: Seq<u32>,
    suf: Seq<u8>,
)
    requires
        0 <= nbits <= u64::MAX,
        super_counts.len() <= u64::MAX,
        ones.len() <= u64::MAX,
    ensures
        ({
            let all = pre + flags_bytes(nbits, super_counts, ones) + suf;
            let at = pre.len() as int;
            &&& flags_bytes(nbits, super_counts, ones).len() == 24 + 4 * super_counts.len() + 4
                * ones.len()
            &&& flags_end(all, at) == Some(at + flags_bytes(nbits, super_counts, ones).len())
            &&& u64_at(all, at) == nbits
            &&& stored_super_counts(all, at) == super_counts
            &&& stored_ones(all, at) == ones
        }),
{
    let fb = flags_bytes(nbits, super_counts, ones);
    let all = pre + fb + suf;
    let a = spec_u64_to_le_bytes(nbits as u64);
    let b = spec_u64_to_le_bytes(super_counts.len() as u64);
    let c = u32s_bytes(super_counts);
    let d = spec_u64_to_le_bytes(ones.len() as u64);
    let e = u32s_bytes(ones);
    lemma_u64_at(pre, nbits as u64, b + c + d + e + suf);
    assert(pre + a + (b + c + d + e + suf) =~= all);
    lemma_u64_at(pre + a, super_counts.len() as u64, c + d + e + suf);
    assert(pre + a + b + (c + d + e + suf) =~= all);
    lemma_u32s_at(pre + a + b, super_counts, d + e + suf);
    assert(pre + a + b + c + (d + e + suf) =~= all);
    lemma_u64_at(pre + a + b + c, ones.len() as u64, e + suf);
    assert(pre + a + b + c + d + (e + suf) =~= all);
    lemma_u32s_at(pre + a + b + c + d, ones, suf);
    assert(pre + a + b + c + d + e + suf =~= all);
}

/// Marked positions of a sparse bitvector with `rank1`.
pub struct CompressedFlags {
    nbits: usize,
    super_counts: Vec<u32>,
    ones: Vec<u32>,
}

impl CompressedFlags {
    /// The length of the bitvector.
    pub closed spec fn nbits(&self) -> int {
        self.nbits as int
    }

    /// The marked positions, ascending.
    pub closed spec fn ones(&self) -> Seq<u32> {
        self.ones@
    }

    /// For each superblock, the number of marked positions before it.
    pub closed spec fn super_counts(&self) -> Seq<u32> {
        self.super_counts@
    }

    /// The structure's invariant.
    pub open spec fn wf(&self) -> bool {
        flags_valid(self.nbits(), self.super_counts(), self.ones())
    }

    /// Whether position `p` is marked.
    pub open spec fn marked(&self, p: int) -> bool {
        0 <= p <= u32::MAX && self.ones().contains(p as u32)
    }

    /// The number of marked positions below `pos`.
    pub open spec fn rank_spec(&self, pos: int) -> nat {
        count_below(self.ones(), pos)
    }

    /// For each of `n_super` superblocks the number of positions before it.
    fn count_supers(ones: &Vec<u32>, n_super: usize) -> (sc: Vec<u32>)
        requires
            strictly_ascending(ones@),
            ones@.len() <= u32::MAX,
            n_super <= 0x80_0001,
        ensures
            sc@.len() == n_super,
            forall|i: int| 0 <= i < sc@.len() ==> #[trigger] sc@[i] == count_below(ones@, 512 * i),
    {
        let mut sc: Vec<u32> = Vec::new();
        let mut idx: usize = 0;
        let mut i: usize = 0;
        while i < n_super
            invariant
                i <= n_super,
                n_super <= 0x80_0001,
                strictly_ascending(ones@),
                ones@.len() <= u32::MAX,
                idx <= ones@.len(),
                sc@.len() == i,
                forall|k: int| 0 <= k < idx ==> ones@[k] < 512 * i,
                forall|k: int| 0 <= k < sc@.len() ==> #[trigger] sc@[k] == count_below(ones@, 512 * k),
            decreases n_super - i,
        {
            let bound: u64 = i as u64 * 512;
            while idx < ones.len() && (ones[idx] as u64) < bound
                invariant
                    idx <= ones@.len(),
                    bound == 512 * i,
                    forall|k: int| 0 <= k < idx ==> ones@[k] < bound,
                decreases ones@.len() - idx,
            {
                idx = idx + 1;
            }
            proof {
                assert forall|k: int| idx <= k < ones@.len() implies ones@[k] >= bound by {
                    if idx < k {
                        assert(ones@[idx as int] < ones@[k]);
                    }
                }
                lemma_count_below_split(ones@, bound as int, idx as int);
            }
            sc.push(idx as u32);
            i = i + 1;
        }
        sc
    }

    /// The length of the bitvector.
    pub fn num_bits(&self) -> (n: usize)
        ensures
            n == self.nbits(),
    {
        self.nbits
    }

    /// The number of marked positions.
    pub fn num_ones(&self) -> (n: usize)
        ensures
            n == self.ones().len(),
    {
        self.ones.len()
    }

    /// Decides whether the three parts make a valid structure.
    fn check_valid(nbits: u64, super_counts: &Vec<u32>, ones: &Vec<u32>) -> (ok: bool)
        ensures
            ok == flags_valid(nbits as int, super_counts@, ones@),
    {
        if nbits > u32::MAX as u64 {
            return false;
        }
        let mut k: usize = 0;
        while k < ones.len()
            invariant
                k <= ones@.len(),
                forall|a: int, b: int| 0 <= a < b < k ==> ones@[a] < ones@[b],
                forall|a: int| 0 <= a < k ==> #[trigger] ones@[a] < nbits,
            decreases ones@.len() - k,
        {
            if ones[k] as u64 >= nbits {
                return false;
            }
            if k > 0 && ones[k - 1] >= ones[k] {
                return false;
            }
            proof {
                assert forall|a: int, b: int| 0 <= a < b < k + 1 implies ones@[a] < ones@[b] by {
                    if b == k && a < k - 1 {
                        assert(ones@[a] < ones@[k - 1]);
                    }
                }
            }
            k = k + 1;
        }
        proof {
            if ones@.len() > 0 {
                lemma_ascending_index(ones@, ones@.len() - 1);
            }
        }
        let n_super: u64 = if nbits % 512 == 0 {
            nbits / 512 + 1
        } else {
            nbits / 512 + 2
        };
        if super_counts.len() as u64 != n_super {
            return false;
        }
        let expected = Self::count_supers(ones, super_counts.len());
        let mut i: usize = 0;
        while i < super_counts.len()
            invariant
                i <= super_counts@.len(),
                expected@.len() == super_counts@.len(),
                forall|a: int|
                    0 <= a < expected@.len() ==> #[trigger] expected@[a] == count_below(
                        ones@,
                        512 * a,
                    ),
                forall|a: int|
                    0 <= a < i ==> #[trigger] super_counts@[a] == count_below(ones@, 512 * a),
            decreases super_counts@.len() - i,
        {
            if super_counts[i] != expected[i] {
                return false;
            }
            i = i + 1;
        }
        true
    }

    /// Appends the serialized structure to `out`.
    pub fn save(&self, out: &mut Vec<u8>)
        ensures
            final(out)@ == old(out)@ + flags_bytes(self.nbits(), self.super_counts(), self.ones()),
    {
        let ghost start = out@;
        put_u64(self.nbits as u64, out);
        put_u64(self.super_counts.len() as u64, out);
        put_u32s(&self.super_counts, out);
        put_u64(self.ones.len() as u64, out);
        put_u32s(&self.ones, out);
        proof {
            assert(out@ =~= start + flags_bytes(
                self.nbits(),
                self.super_counts(),
                self.ones(),
            ));
        }
    }

    /// Reads a structure stored at offset `at` and checks it. Gives the
    /// structure and the offset behind it; `ShortRead` where the buffer ends
    /// too early, `Malformed` where what was read is not valid.
    pub fn load(bytes: &[u8], at: usize) -> (r: Result<(Self, usize), LoadError>)
        ensures
            match r {
                Ok((f, next)) => {
                    &&& flags_end(bytes@, at as int) == Some(next as int)
                    &&& f.wf()
                    &&& f.nbits() == u64_at(bytes@, at as int)
                    &&& f.super_counts() == stored_super_counts(bytes@, at as int)
                    &&& f.ones() == stored_ones(bytes@, at as int)
                },
                Err(LoadError::ShortRead) => flags_end(bytes@, at as int) is None,
                Err(LoadError::Malformed) => flags_end(bytes@, at as int) is Some && !stored_valid(
                    bytes@,
                    at as int,
                ),
                Err(_) => false,
            },
    {
        let (nbits, p1) = match read_u64(bytes, at) {
            Some(x) => x,
            None => {
                return Err(LoadError::ShortRead);
            },
        };
        let (ns, p2) = match read_u64(bytes, p1) {
            Some(x) => x,
            None => {
                return Err(LoadError::ShortRead);
            },
        };
        let (super_counts, p3) = match read_u32s(bytes, p2, ns) {
            Some(x) => x,
            None => {
                return Err(LoadError::ShortRead);
            },
        };
        let (no, p4) = match read_u64(bytes, p3) {
            Some(x) => x,
            None => {
                return Err(LoadError::ShortRead);
            },
        };
        let (ones, p5) = match read_u32s(bytes, p4, no) {
            Some(x) => x,
            None => {
                return Err(LoadError::ShortRead);
            },
        };
        if !Self::check_valid(nbits, &super_counts, &ones) {
            return Err(LoadError::Malformed);
        }
        Ok((CompressedFlags { nbits: nbits as usize, super_counts, ones }, p5))
    }

    /// Builds the structure over `nbits` bits with the given positions marked.
    pub fn build(nbits: usize, one_positions: &[usize]) -> (r: Self)
        requires
            nbits <= u32::MAX,
            one_positions@.no_duplicates(),
            forall|i: int| 0 <= i < one_positions@.len() ==> one_positions@[i] < nbits,
        ensures
            r.wf(),
            r.nbits() == nbits,
            r.ones().len() == one_positions@.len(),
            forall|p: usize| #[trigger] one_positions@.contains(p) <==> r.marked(p as int),
            (forall|a: int, b: int|
                0 <= a < b < one_positions@.len() ==> one_positions@[a] < one_positions@[b])
                ==> forall|k: int|
                0 <= k < one_positions@.len() ==> #[trigger] r.ones()[k] == one_positions@[k],
    {
        let mut wide: Vec<u64> = Vec::new();
        let mut i: usize = 0;
        while i < one_positions.len()
            invariant
                i <= one_positions@.len(),
                wide@.len() == i,
                forall|k: int| 0 <= k < i ==> wide@[k] == one_positions@[k],
            decreases one_positions@.len() - i,
        {
            wide.push(one_positions[i] as u64);
            i = i + 1;
        }
        let ghost given = wide@;
        sort_u64s(&mut wide);
        proof {
            lemma_sorted_ascending(given);
            given.to_multiset_ensures();
            wide@.to_multiset_ensures();
            assert(given.no_duplicates());
            given.lemma_multiset_has_no_duplicates();
            wide@.lemma_multiset_has_no_duplicates_conv();
            if forall|a: int, b: int|
                0 <= a < b < one_positions@.len() ==> one_positions@[a] < one_positions@[b] {
                assert(vstd::relations::sorted_by(given, leq_u64()));
                assert(vstd::relations::sorted_by(wide@, leq_u64())) by {
                    assert forall|a: int, b: int| 0 <= a < b < wide@.len() implies #[trigger] leq_u64()(
                        wide@[a],
                        wide@[b],
                    ) by {
                        assert(wide@[a] <= wide@[b]);
                    }
                }
                assert(vstd::relations::total_ordering(leq_u64()));
                vstd::seq_lib::lemma_sorted_unique(given, wide@, leq_u64());
            }
            assert forall|k: int| 0 <= k < wide@.len() implies wide@[k] < nbits by {
                assert(wide@.contains(wide@[k]));
                assert(given.contains(wide@[k]));
            }
        }
        let mut ones: Vec<u32> = Vec::new();
        let mut j: usize = 0;
        while j < wide.len()
            invariant
                j <= wide@.len(),
                ones@.len() == j,
                nbits <= u32::MAX,
                forall|k: int| 0 <= k < wide@.len() ==> wide@[k] < nbits,
                forall|k: int| 0 <= k < j ==> ones@[k] == wide@[k],
            decreases wide@.len() - j,
        {
            ones.push(wide[j] as u32);
            j = j + 1;
        }
        proof {
            assert forall|a: int, b: int| 0 <= a < b < ones@.len() implies ones@[a] < ones@[b] by {
                assert(wide@[a] <= wide@[b]);
                assert(wide@[a] != wide@[b]);
            }
            if ones@.len() > 0 {
                lemma_ascending_index(ones@, ones@.len() - 1);
            }
            assert forall|p: usize| #[trigger] one_positions@.contains(p) <==> (p <= u32::MAX
                && ones@.contains(p as u32)) by {
                if p <= u32::MAX && ones@.contains(p as u32) {
                    let k = choose|k: int| 0 <= k < ones@.len() && ones@[k] == p as u32;
                    assert(wide@.contains(wide@[k]));
                    assert(given.contains(wide@[k]));
                    let m = choose|m: int| 0 <= m < given.len() && given[m] == wide@[k];
                    assert(one_positions@[m] == p);
                }
                if one_positions@.contains(p) {
                    let k = choose|k: int| 0 <= k < one_positions@.len() && one_positions@[k] == p;
                    assert(given.contains(given[k]));
                    assert(wide@.contains(given[k]));
                    let m = choose|m: int| 0 <= m < wide@.len() && wide@[m] == given[k];
                    assert(ones@[m] == p as u32);
                }
            }
        }
        let n_super: usize = if nbits % 512 == 0 {
            nbits / 512 + 1
        } else {
            nbits / 512 + 2
        };
        let super_counts = Self::count_supers(&ones, n_super);
        CompressedFlags { nbits, super_counts, ones }
    }

    /// The number of marked positions in `[0, pos)`.
    pub fn rank1(&self, pos: usize) -> (r: u64)
        requires
            self.wf(),
            pos <= self.nbits(),
        ensures
            r == self.rank_spec(pos as int),
            r <= self.ones().len(),
            pos == 0 ==> r == 0,
    {
        proof {
            lemma_count_below_bounds(self.ones@, 0, pos as int);
        }
        if pos == 0 {
            return 0;
        }
        let sb: usize = pos / 512;
        let base: usize = self.super_counts[sb] as usize;
        proof {
            lemma_count_below_prefix(self.ones@, 512 * sb);
            lemma_count_below_bounds(self.ones@, 512 * sb, pos as int);
        }
        let mut lo: usize = base;
        let mut hi: usize = self.ones.len();
        while lo < hi
            invariant
                lo <= hi <= self.ones@.len(),
                strictly_ascending(self.ones@),
                forall|k: int| 0 <= k < lo ==> self.ones@[k] < pos,
                forall|k: int| hi <= k < self.ones@.len() ==> self.ones@[k] >= pos,
            decreases hi - lo,
        {
            let mid: usize = lo + (hi - lo) / 2;
            if (self.ones[mid] as usize) < pos {
                proof {
                    assert forall|k: int| 0 <= k < mid + 1 implies self.ones@[k] < pos by {
                        if k < mid {
                            assert(self.ones@[k] < self.ones@[mid as int]);
                        }
                    }
                }
                lo = mid + 1;
            } else {
                proof {
                    assert forall|k: int| mid <= k < self.ones@.len() implies self.ones@[k]
                        >= pos by {
                        if mid < k {
                            assert(self.ones@[mid as int] < self.ones@[k]);
                        }
                    }
                }
                hi = mid;
            }
        }
        proof {
            lemma_count_below_split(self.ones@, pos as int, lo as int);
        }
        lo as u64
    }
}

} // verus!
