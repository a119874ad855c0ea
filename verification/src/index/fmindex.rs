//! The FM-index: the Burrows-Wheeler transform with a table of cumulative
//! byte counts, one rank bitvector per byte value, and a sample of the suffix
//! array that turns rows into text offsets.

use crate::util::bitvec::{bit_set, bits_of, count_true, RankBitVec};
use crate::util::rrr::{count_below, lemma_count_below_split, lemma_rank_step, CompressedFlags};
use vstd::prelude::*;

verus! {

/// A half-open range `[l, r)` of rows of the suffix array.
#[derive(Clone, Copy, Debug, PartialEq, Eq, Structural)]
pub struct MatchRange {
    pub l: u64,
    pub r: u64,
}

/// The number of occurrences of `ch` among the first `i` bytes of `b`.
pub open spec fn char_rank(b: Seq<u8>, ch: u8, i: int) -> nat
    decreases i,
{
    if i <= 0 {
        0
    } else {
        char_rank(b, ch, i - 1) + if b[i - 1] == ch {
            1nat
        } else {
            0nat
        }
    }
}

/// The number of bytes less than `ch` among the first `i` bytes of `b`.
pub open spec fn less_rank(b: Seq<u8>, ch: int, i: int) -> nat
    decreases i,
{
    if i <= 0 {
        0
    } else {
        less_rank(b, ch, i - 1) + if b[i - 1] < ch {
            1nat
        } else {
            0nat
        }
    }
}

/// The row that the last-to-first mapping sends row `r` to.
pub open spec fn lf_of(b: Seq<u8>, r: int) -> int {
    (less_rank(b, b[r] as int, b.len() as int) + char_rank(b, b[r], r)) as int
}

/// Backward search over the last `m` bytes still to be matched, from the
/// range `[l, r)`: one step per byte, from the right, empty as soon as the
/// range closes.
pub open spec fn search_from(b: Seq<u8>, pat: Seq<u8>, m: int, l: int, r: int) -> Option<
    (int, int),
>
    decreases m,
{
    if m <= 0 {
        Some((l, r))
    } else {
        let ch = pat[m - 1];
        let base = less_rank(b, ch as int, b.len() as int);
        let l2 = (base + char_rank(b, ch, l)) as int;
        let r2 = (base + char_rank(b, ch, r)) as int;
        if l2 >= r2 {
            None
        } else {
            search_from(b, pat, m - 1, l2, r2)
        }
    }
}

/// Each step of the last-to-first mapping leads from a row to the row of
/// the text offset before it, from offset 0 to the last offset.
pub open spec fn steps_back(b: Seq<u8>, sa: Seq<usize>) -> bool {
    forall|r: int|
        0 <= r < sa.len() ==> sa[#[trigger] lf_of(b, r)] == (if sa[r] == 0 {
            sa.len() - 1
        } else {
            sa[r] - 1
        })
}

/// `v` marks exactly the places of `b` that hold `ch`.
pub open spec fn marks_byte(v: Seq<bool>, b: Seq<u8>, ch: u8) -> bool {
    &&& v.len() >= b.len()
    &&& forall|i: int| 0 <= i < v.len() ==> #[trigger] v[i] == (i < b.len() && b[i] == ch)
}

pub proof fn lemma_marks_rank(v: Seq<bool>, b: Seq<u8>, ch: u8, i: int)
    requires
        marks_byte(v, b, ch),
        0 <= i <= b.len(),
    ensures
        count_true(v, i) == char_rank(b, ch, i),
    decreases i,
{
    if i > 0 {
        lemma_marks_rank(v, b, ch, i - 1);
        assert(v[i - 1] == (b[i - 1] == ch));
    }
}

/// Counts of one byte and of the bytes below it never exceed the prefix, and
/// grow with it.
pub proof fn lemma_rank_bounds(b: Seq<u8>, ch: u8, i: int, j: int)
    requires
        0 <= i <= j,
    ensures
        char_rank(b, ch, i) <= char_rank(b, ch, j),
        less_rank(b, ch as int, j) + char_rank(b, ch, j) <= j,
        less_rank(b, ch as int + 1, j) == less_rank(b, ch as int, j) + char_rank(b, ch, j),
        less_rank(b, 0, j) == 0,
    decreases j,
{
    if j > 0 {
        if i < j {
            lemma_rank_bounds(b, ch, i, j - 1);
        } else {
            lemma_rank_bounds(b, ch, i - 1, j - 1);
        }
    }
}

/// A byte at place `i` is counted by every longer prefix.
pub proof fn lemma_rank_counts_place(b: Seq<u8>, i: int, j: int)
    requires
        0 <= i < j,
    ensures
        char_rank(b, b[i], i) < char_rank(b, b[i], j),
    decreases j,
{
    if i + 1 < j {
        lemma_rank_counts_place(b, i, j - 1);
    } else {
        assert(char_rank(b, b[i], i + 1) == char_rank(b, b[i], i) + 1);
    }
}

/// The last-to-first mapping stays inside the rows.
pub proof fn lemma_lf_in_range(b: Seq<u8>, r: int)
    requires
        0 <= r < b.len(),
    ensures
        0 <= lf_of(b, r) < b.len(),
{
    lemma_rank_counts_place(b, r, b.len() as int);
    lemma_rank_bounds(b, b[r], 0, b.len() as int);
}

/// The count of bytes below a value grows with the value.
pub proof fn lemma_less_rank_monotone(b: Seq<u8>, lo: int, hi: int, i: int)
    requires
        lo <= hi,
    ensures
        less_rank(b, lo, i) <= less_rank(b, hi, i),
    decreases i,
{
    if i > 0 {
        lemma_less_rank_monotone(b, lo, hi, i - 1);
    }
}

/// The last-to-first mapping sends no two rows to the same row: with
/// `lemma_lf_in_range`, it is a permutation of the rows.
pub proof fn lemma_lf_injective(b: Seq<u8>, r1: int, r2: int)
    requires
        0 <= r1 < r2 < b.len(),
    ensures
        lf_of(b, r1) != lf_of(b, r2),
{
    let n = b.len() as int;
    let c1 = b[r1];
    let c2 = b[r2];
    if c1 == c2 {
        lemma_rank_counts_place(b, r1, r2);
    } else if c1 < c2 {
        lemma_rank_counts_place(b, r1, n);
        lemma_rank_bounds(b, c1, 0, n);
        lemma_less_rank_monotone(b, c1 as int + 1, c2 as int, n);
    } else {
        lemma_rank_counts_place(b, r2, n);
        lemma_rank_bounds(b, c2, 0, n);
        lemma_less_rank_monotone(b, c2 as int + 1, c1 as int, n);
    }
}

proof fn lemma_bit_or(w: u64, j: u64, i: u64)
    requires
        j < 64,
        i < 64,
    ensures
        bit_set(w | (1u64 << j), i) == (bit_set(w, i) || i == j),
        !bit_set(0, i),
{
    assert((((w | (1u64 << j)) >> i) & 1 == 1) == (((w >> i) & 1 == 1) || i == j))
        by (bit_vector)
        requires
            j < 64,
            i < 64,
    ;
    assert((0u64 >> i) & 1 == 0) by (bit_vector);
}

/// The words of the bitvector that marks where `bwt` holds `ch`.
pub fn occ_words(bwt: &[u8], ch: u8) -> (words: Vec<u64>)
    requires
        bwt@.len() <= u32::MAX,
    ensures
        words@.len() * 64 <= u64::MAX,
        marks_byte(bits_of(words@), bwt@, ch),
{
    let n: usize = bwt.len();
    let nwords: usize = n / 64 + 1;
    let mut words: Vec<u64> = Vec::new();
    let mut w: usize = 0;
    while w < nwords
        invariant
            w <= nwords,
            n == bwt@.len(),
            n <= u32::MAX,
            nwords == n / 64 + 1,
            words@.len() == w,
            forall|q: int, i: u64|
                0 <= q < w && i < 64 ==> #[trigger] bit_set(words@[q], i) == (64 * q + i < n
                    && bwt@[64 * q + i] == ch),
        decreases nwords - w,
    {
        let mut word: u64 = 0;
        let mut j: u64 = 0;
        proof {
            assert forall|i: u64| i < 64 implies !#[trigger] bit_set(word, i) by {
                lemma_bit_or(0, 0, i);
            }
        }
        while j < 64
            invariant
                j <= 64,
                w < nwords,
                n == bwt@.len(),
                n <= u32::MAX,
                nwords == n / 64 + 1,
                forall|i: u64|
                    i < 64 ==> #[trigger] bit_set(word, i) == (i < j && 64 * w + i < n && bwt@[64
                        * w + i] == ch),
            decreases 64 - j,
        {
            let idx: usize = w * 64 + j as usize;
            if idx < n && bwt[idx] == ch {
                let ghost prev = word;
                word = word | (1u64 << j);
                proof {
                    assert forall|i: u64| i < 64 implies #[trigger] bit_set(word, i) == (i < j + 1
                        && 64 * w + i < n && bwt@[64 * w + i] == ch) by {
                        lemma_bit_or(prev, j, i);
                    }
                }
            }
            j = j + 1;
        }
        words.push(word);
        w = w + 1;
    }
    proof {
        let v = bits_of(words@);
        assert forall|i: int| 0 <= i < v.len() implies #[trigger] v[i] == (i < bwt@.len() && bwt@[i]
            == ch) by {
            let q = i / 64;
            let k = (i % 64) as u64;
            assert(v[i] == bit_set(words@[q], k));
            assert(64 * q + k == i);
        }
    }
    words
}

/// For every byte value the number of bytes of `bwt` below it.
pub fn count_table(bwt: &[u8]) -> (c: Vec<u64>)
    ensures
        c@.len() == 256,
        forall|ch: int|
            0 <= ch < 256 ==> #[trigger] c@[ch] == less_rank(bwt@, ch, bwt@.len() as int),
{
    let n: usize = bwt.len();
    let mut freq: Vec<u64> = Vec::new();
    let mut k: usize = 0;
    while k < 256
        invariant
            k <= 256,
            freq@.len() == k,
            forall|ch: int| 0 <= ch < k ==> #[trigger] freq@[ch] == 0,
        decreases 256 - k,
    {
        freq.push(0);
        k = k + 1;
    }
    let mut i: usize = 0;
    while i < n
        invariant
            i <= n,
            n == bwt@.len(),
            freq@.len() == 256,
            forall|ch: int| 0 <= ch < 256 ==> #[trigger] freq@[ch] == char_rank(bwt@, ch as u8, i as int),
        decreases n - i,
    {
        let ch: usize = bwt[i] as usize;
        proof {
            lemma_rank_bounds(bwt@, ch as u8, 0, i as int);
        }
        let old_count: u64 = freq[ch];
        freq.set(ch, old_count + 1);
        i = i + 1;
    }
    proof {
        lemma_rank_bounds(bwt@, 0, 0, n as int);
    }
    let mut c: Vec<u64> = Vec::new();
    let mut acc: u64 = 0;
    let mut ch: usize = 0;
    while ch < 256
        invariant
            ch <= 256,
            n == bwt@.len(),
            freq@.len() == 256,
            forall|d: int| 0 <= d < 256 ==> #[trigger] freq@[d] == char_rank(bwt@, d as u8, n as int),
            c@.len() == ch,
            acc == less_rank(bwt@, ch as int, n as int),
            forall|d: int| 0 <= d < ch ==> #[trigger] c@[d] == less_rank(bwt@, d, n as int),
        decreases 256 - ch,
    {
        proof {
            lemma_rank_bounds(bwt@, ch as u8, 0, n as int);
        }
        c.push(acc);
        acc = acc + freq[ch];
        ch = ch + 1;
    }
    c
}


/// For every byte value the rank bitvector of its places in `bwt`.
pub fn build_occ(bwt: &[u8]) -> (occ: Vec<RankBitVec>)
    requires
        bwt@.len() <= u32::MAX,
    ensures
        occ@.len() == 256,
        forall|d: int|
            0 <= d < 256 ==> (#[trigger] occ@[d]).wf() && marks_byte(occ@[d]@, bwt@, d as u8),
{
    let mut occ: Vec<RankBitVec> = Vec::new();
    let mut ch: usize = 0;
    while ch < 256
        invariant
            ch <= 256,
            bwt@.len() <= u32::MAX,
            occ@.len() == ch,
            forall|d: int|
                0 <= d < ch ==> (#[trigger] occ@[d]).wf() && marks_byte(
                    occ@[d]@,
                    bwt@,
                    d as u8,
                ),
        decreases 256 - ch,
    {
        let words = occ_words(bwt, ch as u8);
        occ.push(RankBitVec::from_bits(words));
        ch = ch + 1;
    }
    occ
}

/// The FM-index of a text of `n` bytes.
pub struct FMIndex {
    /// For every byte value the number of bytes of the transform below it.
    pub c: Vec<u64>,
    /// For every byte value the bitvector of its places in the transform.
    pub occ: Vec<RankBitVec>,
    /// The Burrows-Wheeler transform.
    pub bwt: Vec<u8>,
    /// The length of the text, sentinel included.
    pub n: usize,
    /// The sampling period of the suffix array.
    pub sa_sample: usize,
    /// The rows whose text offsets are kept.
    pub samp_flags: CompressedFlags,
    /// The text offsets of the sampled rows, in row order.
    pub samp_pos: Vec<usize>,
}

impl FMIndex {
    /// The sampled rows, ascending.
    pub open spec fn sample_ranks(&self) -> Seq<u32> {
        self.samp_flags.ones()
    }

    /// The text offsets of the sampled rows, in row order.
    pub open spec fn samples(&self) -> Seq<usize> {
        self.samp_pos@
    }

    /// The tables agree with the transform, and there is one text offset
    /// below `n` for every sampled row.
    pub open spec fn wf(&self) -> bool {
        &&& self.n == self.bwt@.len()
        &&& 0 < self.n <= u32::MAX
        &&& self.sa_sample >= 1
        &&& self.c@.len() == 256
        &&& forall|ch: int|
            0 <= ch < 256 ==> #[trigger] self.c@[ch] == less_rank(self.bwt@, ch, self.n as int)
        &&& self.occ@.len() == 256
        &&& forall|ch: int|
            0 <= ch < 256 ==> (#[trigger] self.occ@[ch]).wf() && marks_byte(
                self.occ@[ch]@,
                self.bwt@,
                ch as u8,
            )
        &&& self.samp_flags.wf()
        &&& self.samp_flags.nbits() == self.n
        &&& self.samp_pos@.len() == self.samp_flags.ones().len()
        &&& forall|i: int| 0 <= i < self.samp_pos@.len() ==> #[trigger] self.samp_pos@[i] < self.n
    }

    /// Whether row `r` is sampled.
    pub open spec fn sampled(&self, r: int) -> bool {
        count_below(self.sample_ranks(), r + 1) > count_below(self.sample_ranks(), r)
    }

    /// The place of the sampled row `r` among the sampled rows.
    pub open spec fn sample_index(&self, r: int) -> int {
        count_below(self.sample_ranks(), r + 1) - 1
    }

    /// The text offset found from row `r` after `steps` steps of the
    /// last-to-first mapping, with `fuel` more steps allowed; 0 where no
    /// sampled row is met in time.
    pub open spec fn locate_walk(&self, r: int, steps: int, fuel: nat) -> int
        decreases fuel,
    {
        if self.sampled(r) {
            (self.samples()[self.sample_index(r)] + steps) % (self.n as int)
        } else if fuel == 0 {
            0
        } else {
            self.locate_walk(lf_of(self.bwt@, r), steps + 1, (fuel - 1) as nat)
        }
    }

    /// The text offset of row `r`.
    pub open spec fn locate_spec(&self, r: int) -> int {
        self.locate_walk(r, 0, self.n as nat)
    }

    /// The row marked as the `q`-th sampled row is sampled, has `q` as its
    /// place among the sampled rows, and is located at the `q`-th sample.
    pub proof fn lemma_locate_sampled(&self, q: int)
        requires
            self.wf(),
            0 <= q < self.samples().len(),
        ensures
            self.sampled(self.sample_ranks()[q] as int),
            self.sample_index(self.sample_ranks()[q] as int) == q,
            self.locate_spec(self.sample_ranks()[q] as int) == self.samples()[q],
    {
        let ones = self.sample_ranks();
        let r = ones[q] as int;
        assert forall|i: int| 0 <= i < q implies ones[i] < r by {
            assert(ones[i] < ones[q]);
        }
        assert forall|i: int| q < i < ones.len() implies ones[i] >= r + 1 by {
            assert(ones[q] < ones[i]);
        }
        lemma_count_below_split(ones, r, q);
        lemma_count_below_split(ones, r + 1, q + 1);
        assert(self.samples()[q] < self.n);
        vstd::arithmetic::div_mod::lemma_small_mod(self.samples()[q] as nat, self.n as nat);
        assert(self.locate_walk(r, 0, self.n as nat) == (self.samples()[q] + 0) % (self.n as int));
    }

    /// The samples are taken from `sa`: row 0 is sampled, and every sampled
    /// row has its entry of `sa` as its sample.
    pub open spec fn samples_from(&self, sa: Seq<usize>) -> bool {
        &&& sa.len() == self.n
        &&& self.samples().len() > 0
        &&& self.sample_ranks()[0] == 0
        &&& forall|q: int|
            0 <= q < self.samples().len() ==> #[trigger] self.samples()[q] == sa[self.sample_ranks()[q] as int]
    }

    /// Where `sa` holds every offset once, starts with the last offset, and
    /// each step of the last-to-first mapping leads to the row of the offset
    /// before, a walk with enough fuel arrives at the row's own offset, moved
    /// on by the steps already taken.
    pub proof fn lemma_locate_walk(&self, sa: Seq<usize>, r: int, steps: int, fuel: nat)
        requires
            self.wf(),
            self.samples_from(sa),
            sa.no_duplicates(),
            forall|i: int| 0 <= i < sa.len() ==> #[trigger] sa[i] < sa.len(),
            sa[0] == sa.len() - 1,
            steps_back(self.bwt@, sa),
            0 <= r < self.n,
            0 <= steps,
            fuel >= (if sa[r] == sa.len() - 1 {
                0
            } else {
                sa[r] + 1
            }),
        ensures
            self.locate_walk(r, steps, fuel) == (sa[r] + steps) % (self.n as int),
        decreases fuel,
    {
        let ones = self.sample_ranks();
        lemma_rank_step(ones, r as u32);
        if self.sampled(r) {
            let q = choose|q: int| 0 <= q < ones.len() && ones[q] == r as u32;
            self.lemma_locate_sampled(q);
        } else {
            self.lemma_locate_sampled(0);
            assert(r != 0);
            assert(sa[r] != sa[0]);
            lemma_lf_in_range(self.bwt@, r);
            let to = lf_of(self.bwt@, r);
            assert(sa[to] == (if sa[r] == 0 {
                sa.len() - 1
            } else {
                sa[r] - 1
            }));
            self.lemma_locate_walk(sa, to, steps + 1, (fuel - 1) as nat);
            if sa[r] == 0 {
                vstd::arithmetic::div_mod::lemma_mod_add_multiples_vanish(steps, self.n as int);
                assert(sa[to] + (steps + 1) == self.n + steps);
            }
        }
    }

    /// Under the same conditions every row is located at its entry of `sa`.
    pub proof fn lemma_locate_is_sa(&self, sa: Seq<usize>, r: int)
        requires
            self.wf(),
            self.samples_from(sa),
            sa.no_duplicates(),
            forall|i: int| 0 <= i < sa.len() ==> #[trigger] sa[i] < sa.len(),
            sa[0] == sa.len() - 1,
            steps_back(self.bwt@, sa),
            0 <= r < self.n,
        ensures
            self.locate_spec(r) == sa[r],
    {
        self.lemma_locate_walk(sa, r, 0, self.n as nat);
        vstd::arithmetic::div_mod::lemma_small_mod(sa[r] as nat, self.n as nat);
    }

    /// Builds the index of `text` from its suffix array `sa` and transform
    /// `bwt`, sampling every `sa_sample`-th row (every row where that is 0).
    pub fn build(text: &[u8], sa: &[usize], bwt: &[u8], sa_sample: usize) -> (fm: Self)
        requires
            text@.len() == bwt@.len(),
            sa@.len() == bwt@.len(),
            0 < text@.len() <= u32::MAX,
            text@[text@.len() - 1] == 0x24,
            forall|r: int| 0 <= r < sa@.len() ==> #[trigger] sa@[r] < sa@.len(),
        ensures
            fm.wf(),
            fm.bwt@ == bwt@,
            fm.n == bwt@.len(),
            fm.sa_sample == (if sa_sample == 0 {
                1
            } else {
                sa_sample
            }),
            fm.samples().len() == fm.sample_ranks().len(),
            fm.samples_from(sa@),
            (fm.samples().len() - 1) * fm.sa_sample < fm.n <= fm.samples().len() * fm.sa_sample,
            forall|q: int|
                0 <= q < fm.samples().len() ==> #[trigger] fm.sample_ranks()[q] == q * fm.sa_sample
                    && fm.samples()[q] == sa@[q * fm.sa_sample],
    {
        let n: usize = bwt.len();
        let k: usize = if sa_sample == 0 {
            1
        } else {
            sa_sample
        };
        let c = count_table(bwt);
        let occ = build_occ(bwt);
        let mut one_positions: Vec<usize> = Vec::new();
        let mut samp_pos: Vec<usize> = Vec::new();
        let mut rank: usize = 0;
        proof {
            assert(0 * k == 0) by (nonlinear_arith);
        }
        while rank < n
            invariant
                rank <= n,
                n == sa@.len(),
                k >= 1,
                forall|r: int| 0 <= r < sa@.len() ==> #[trigger] sa@[r] < sa@.len(),
                one_positions@.len() == samp_pos@.len(),
                rank < n ==> rank == samp_pos@.len() * k,
                rank >= n ==> samp_pos@.len() * k >= n,
                samp_pos@.len() > 0 ==> (samp_pos@.len() - 1) * k < n,
                forall|q: int|
                    0 <= q < samp_pos@.len() ==> #[trigger] one_positions@[q] == q * k
                        && samp_pos@[q] == sa@[q * k] && one_positions@[q] < n,
                forall|q: int| 0 <= q < samp_pos@.len() ==> #[trigger] samp_pos@[q] < n,
            decreases n - rank,
        {
            let ghost m = samp_pos@.len() as int;
            one_positions.push(rank);
            samp_pos.push(sa[rank]);
            proof {
                assert((m + 1) * k == m * k + k) by (nonlinear_arith);
                assert((m + 1 - 1) * k == m * k);
            }
            if n - rank <= k {
                rank = n;
            } else {
                rank = rank + k;
            }
        }
        proof {
            assert forall|a: int, b: int|
                0 <= a < b < one_positions@.len() implies one_positions@[a] < one_positions@[b] by {
                assert(a * k < b * k) by (nonlinear_arith)
                    requires
                        0 <= a < b,
                        k >= 1,
                ;
            }
        }
        let samp_flags = CompressedFlags::build(n, one_positions.as_slice());
        let mut own: Vec<u8> = Vec::new();
        own.extend_from_slice(bwt);
        proof {
            assert(own@ =~= bwt@);
            assert(samp_pos@.len() > 0);
            assert(one_positions@[0] == 0 * k);
            assert(samp_flags.ones()[0] == one_positions@[0]);
            assert forall|q: int| 0 <= q < samp_pos@.len() implies #[trigger] samp_pos@[q] == sa@[samp_flags.ones()[q] as int] by {
                assert(samp_flags.ones()[q] == one_positions@[q]);
                assert(one_positions@[q] == q * k);
            }
        }
        FMIndex { c, occ, bwt: own, n, sa_sample: k, samp_flags, samp_pos }
    }

    /// The number of occurrences of `ch` among the first `i` bytes of the
    /// transform.
    pub fn occ_rank(&self, ch: u8, i: u64) -> (r: u64)
        requires
            self.wf(),
            i <= self.n,
        ensures
            r == char_rank(self.bwt@, ch, i as int),
            r <= i,
    {
        proof {
            assert(self.occ@[ch as int].wf());
            lemma_marks_rank(self.occ@[ch as int]@, self.bwt@, ch, i as int);
        }
        self.occ[ch as usize].rank1(i as usize)
    }

    /// The last-to-first mapping of row `r`.
    pub fn lf(&self, r: u64) -> (to: u64)
        requires
            self.wf(),
            r < self.n,
        ensures
            to == lf_of(self.bwt@, r as int),
            to < self.n,
    {
        let ch: u8 = self.bwt[r as usize];
        proof {
            lemma_lf_in_range(self.bwt@, r as int);
            assert(self.c@[ch as int] == less_rank(self.bwt@, ch as int, self.n as int));
        }
        self.c[ch as usize] + self.occ_rank(ch, r)
    }

    /// The rows whose suffixes start with `pat`, by backward search; `None`
    /// where the range closes on the way.
    pub fn backward_search(&self, pat: &[u8]) -> (res: Option<MatchRange>)
        requires
            self.wf(),
        ensures
            match search_from(self.bwt@, pat@, pat@.len() as int, 0, self.n as int) {
                Some((l, r)) => res == Some(MatchRange { l: l as u64, r: r as u64 }),
                None => res is None,
            },
            res matches Some(m) ==> m.l <= m.r <= self.n && (pat@.len() > 0 ==> m.l < m.r),
            pat@.len() == 0 ==> res == Some(MatchRange { l: 0, r: self.n as u64 }),
    {
        let mut l: u64 = 0;
        let mut r: u64 = self.n as u64;
        let mut k: usize = pat.len();
        while k > 0
            invariant
                self.wf(),
                k <= pat@.len(),
                l <= r <= self.n,
                k < pat@.len() ==> l < r,
                search_from(self.bwt@, pat@, pat@.len() as int, 0, self.n as int) == search_from(
                    self.bwt@,
                    pat@,
                    k as int,
                    l as int,
                    r as int,
                ),
            decreases k,
        {
            let ch: u8 = pat[k - 1];
            proof {
                assert(self.c@[ch as int] == less_rank(self.bwt@, ch as int, self.n as int));
                lemma_rank_bounds(self.bwt@, ch, l as int, r as int);
                lemma_rank_bounds(self.bwt@, ch, r as int, self.n as int);
            }
            let base: u64 = self.c[ch as usize];
            let l2: u64 = base + self.occ_rank(ch, l);
            let r2: u64 = base + self.occ_rank(ch, r);
            if l2 >= r2 {
                return None;
            }
            l = l2;
            r = r2;
            k = k - 1;
        }
        Some(MatchRange { l, r })
    }

    /// Whether row `r` is a sampled row.
    pub fn is_sampled(&self, r: usize) -> (b: bool)
        requires
            self.wf(),
            r < self.n,
        ensures
            b == self.sampled(r as int),
    {
        let before = self.samp_flags.rank1(r);
        let after = self.samp_flags.rank1(r + 1);
        after > before
    }

    /// The place of the sampled row `r` among the sampled rows.
    pub fn sampled_index(&self, r: usize) -> (idx: usize)
        requires
            self.wf(),
            r < self.n,
            self.sampled(r as int),
        ensures
            idx == self.sample_index(r as int),
            idx < self.samples().len(),
    {
        let count: usize = self.samp_pos.len();
        let below: u64 = self.samp_flags.rank1(r + 1);
        assert(below <= count);
        (below - 1) as usize
    }

    /// The text offset of row `r`: walks the last-to-first mapping to a
    /// sampled row and adds the steps taken to its offset.
    pub fn locate(&self, r: u64) -> (pos: usize)
        requires
            self.wf(),
            r < self.n,
        ensures
            pos == self.locate_spec(r as int),
            pos < self.n,
    {
        let mut row: u64 = r;
        let mut steps: usize = 0;
        loop
            invariant
                self.wf(),
                row < self.n,
                steps <= self.n,
                self.locate_spec(r as int) == self.locate_walk(
                    row as int,
                    steps as int,
                    (self.n - steps) as nat,
                ),
            decreases self.n - steps,
        {
            if self.is_sampled(row as usize) {
                let idx = self.sampled_index(row as usize);
                let at: usize = self.samp_pos[idx];
                return ((at as u64 + steps as u64) % (self.n as u64)) as usize;
            }
            if steps >= self.n {
                return 0;
            }
            row = self.lf(row);
            steps = steps + 1;
        }
    }

    /// The text offsets of the first `limit` rows of `range`, in row order.
    pub fn locate_range(&self, range: &MatchRange, limit: usize) -> (out: Vec<usize>)
        requires
            self.wf(),
            range.l <= range.r <= self.n,
        ensures
            out@.len() == (if limit <= range.r - range.l {
                limit as int
            } else {
                range.r - range.l
            }),
            forall|i: int|
                0 <= i < out@.len() ==> #[trigger] out@[i] == self.locate_spec(range.l + i),
    {
        let width: usize = (range.r - range.l) as usize;
        let take: usize = if limit <= width {
            limit
        } else {
            width
        };
        let mut out: Vec<usize> = Vec::new();
        let mut i: usize = 0;
        while i < take
            invariant
                self.wf(),
                i <= take,
                take <= range.r - range.l,
                range.l <= range.r <= self.n,
                out@.len() == i,
                forall|j: int|
                    0 <= j < out@.len() ==> #[trigger] out@[j] == self.locate_spec(range.l + j),
            decreases take - i,
        {
            out.push(self.locate(range.l + i as u64));
            i = i + 1;
        }
        out
    }
}

} // verus!
