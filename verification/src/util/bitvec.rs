//! A dense bitvector with constant-time `rank1` through two levels of prefix
//! counts: one per superblock of eight words, one per word.

use vstd::prelude::*;

verus! {

/// Whether bit `j` of `w` is set.
pub open spec fn bit_set(w: u64, j: u64) -> bool {
    (w >> j) & 1 == 1
}

/// The number of set bits among the lowest `k` bits of `w`.
pub open spec fn ones_below(w: u64, k: nat) -> nat
    decreases k,
{
    if k == 0 {
        0
    } else {
        ones_below(w, (k - 1) as nat) + if bit_set(w, (k - 1) as u64) {
            1nat
        } else {
            0nat
        }
    }
}

/// The number of set bits in the first `n` words.
pub open spec fn ones_in_words(ws: Seq<u64>, n: int) -> nat
    decreases n,
{
    if n <= 0 {
        0
    } else {
        ones_in_words(ws, n - 1) + ones_below(ws[n - 1], 64)
    }
}

/// The bits that a sequence of words holds, bit `i` in word `i / 64` at
/// place `i % 64`.
pub open spec fn bits_of(ws: Seq<u64>) -> Seq<bool> {
    Seq::new(64 * ws.len(), |i: int| bit_set(ws[i / 64], (i % 64) as u64))
}

/// The number of `true` among the first `pos` entries: the naive rank.
pub open spec fn count_true(v: Seq<bool>, pos: int) -> nat
    decreases pos,
{
    if pos <= 0 {
        0
    } else {
        count_true(v, pos - 1) + if v[pos - 1] {
            1nat
        } else {
            0nat
        }
    }
}

/// The word with exactly the lowest `k` bits set, for `k < 64`.
pub open spec fn low_mask(k: u64) -> u64 {
    !(u64::MAX << k)
}

pub proof fn lemma_ones_below_bound(w: u64, k: nat)
    ensures
        ones_below(w, k) <= k,
    decreases k,
{
    if k > 0 {
        lemma_ones_below_bound(w, (k - 1) as nat);
    }
}

pub proof fn lemma_ones_in_words_step(ws: Seq<u64>, a: int, b: int)
    requires
        0 <= a <= b,
    ensures
        ones_in_words(ws, a) <= ones_in_words(ws, b) <= ones_in_words(ws, a) + 64 * (b - a),
    decreases b - a,
{
    if a < b {
        lemma_ones_in_words_step(ws, a, b - 1);
        lemma_ones_below_bound(ws[b - 1], 64);
    }
}

/// Masking a word to its lowest `k` bits keeps exactly the set bits below `k`.
proof fn lemma_masked_ones(w: u64, k: u64, j: nat)
    requires
        k < 64,
        j <= 64,
    ensures
        ones_below(w & low_mask(k), j) == ones_below(w, if j <= k {
            j
        } else {
            k as nat
        }),
    decreases j,
{
    if j > 0 {
        lemma_masked_ones(w, k, (j - 1) as nat);
        let b = (j - 1) as u64;
        assert(((w & !(u64::MAX << k)) >> b) & 1 == 1 <==> (b < k && (w >> b) & 1 == 1))
            by (bit_vector)
            requires
                k < 64,
                b < 64,
        ;
    }
}

/// The naive rank splits into whole words and the low bits of one word.
pub proof fn lemma_count_by_words(ws: Seq<u64>, w: int, k: nat)
    requires
        0 <= w <= ws.len(),
        k <= 64,
        w < ws.len() || k == 0,
    ensures
        count_true(bits_of(ws), 64 * w + k) == ones_in_words(ws, w) + if k == 0 {
            0
        } else {
            ones_below(ws[w], k)
        },
    decreases w, k,
{
    if k > 0 {
        lemma_count_by_words(ws, w, (k - 1) as nat);
        let v = bits_of(ws);
        let i = 64 * w + k - 1;
        assert(i / 64 == w && i % 64 == k - 1);
        assert(v[i] == bit_set(ws[w], (k - 1) as u64));
        assert(count_true(v, i + 1) == count_true(v, i) + if v[i] {
            1nat
        } else {
            0nat
        });
        assert(ones_below(ws[w], k) == ones_below(ws[w], (k - 1) as nat) + if bit_set(
            ws[w],
            (k - 1) as u64,
        ) {
            1nat
        } else {
            0nat
        });
    } else if w > 0 {
        lemma_count_by_words(ws, w - 1, 64);
        assert(64 * (w - 1) + 64 == 64 * w + k);
        assert(ones_in_words(ws, w) == ones_in_words(ws, w - 1) + ones_below(ws[w - 1], 64));
    }
}

/// The naive rank never decreases, and grows by at most one per position.
pub proof fn lemma_count_true_monotone(v: Seq<bool>, i: int, j: int)
    requires
        0 <= i <= j,
    ensures
        count_true(v, i) <= count_true(v, j) <= count_true(v, i) + (j - i),
    decreases j - i,
{
    if i < j {
        lemma_count_true_monotone(v, i, j - 1);
    }
}

/// `u64::count_ones`: the number of bits that are set in `w`.
#[verifier::external_body]
fn popcount(w: u64) -> (r: u32)
    ensures
        r == ones_below(w, 64),
{
    w.count_ones()
}

/// A bitvector stored as 64-bit words, with the prefix counts that answer
/// `rank1` in constant time.
pub struct RankBitVec {
    bits: Vec<u64>,
    super_: Vec<u64>,
    block: Vec<u16>,
}

impl View for RankBitVec {
    type V = Seq<bool>;

    closed spec fn view(&self) -> Seq<bool> {
        bits_of(self.bits@)
    }
}

impl RankBitVec {
    /// The words that hold the bits.
    pub closed spec fn words(&self) -> Seq<u64> {
        self.bits@
    }

    /// The prefix counts agree with the words: one count per superblock of
    /// eight words, and one per word relative to its superblock.
    pub closed spec fn wf(&self) -> bool {
        let ws = self.bits@;
        &&& self.super_@.len() == ws.len() / 8 + 1
        &&& self.block@.len() == ws.len() + 1
        &&& ws.len() * 64 <= u64::MAX
        &&& forall|s: int|
            0 <= s < self.super_@.len() ==> #[trigger] self.super_@[s] == ones_in_words(ws, 8 * s)
        &&& forall|w: int|
            0 <= w < self.block@.len() ==> #[trigger] self.block@[w] == ones_in_words(ws, w)
                - ones_in_words(ws, 8 * (w / 8))
    }

    /// Builds the prefix counts over `bits` in one pass.
    pub fn from_bits(bits: Vec<u64>) -> (r: Self)
        requires
            bits@.len() * 64 <= u64::MAX,
        ensures
            r.wf(),
            r.words() == bits@,
            r@ == bits_of(bits@),
    {
        let n: usize = bits.len();
        let ghost ws = bits@;
        let mut super_: Vec<u64> = Vec::new();
        let mut block: Vec<u16> = Vec::new();
        let mut total: u64 = 0;
        let mut base: u64 = 0;
        let mut i: usize = 0;
        while i < n
            invariant
                i <= n,
                n == ws.len(),
                bits@ == ws,
                n * 64 <= u64::MAX,
                total == ones_in_words(ws, i as int),
                super_@.len() == (i + 7) / 8,
                block@.len() == i,
                i % 8 != 0 ==> base == ones_in_words(ws, 8 * (i / 8)),
                forall|s: int|
                    0 <= s < super_@.len() ==> #[trigger] super_@[s] == ones_in_words(ws, 8 * s),
                forall|w: int|
                    0 <= w < block@.len() ==> #[trigger] block@[w] == ones_in_words(ws, w)
                        - ones_in_words(ws, 8 * (w / 8)),
            decreases n - i,
        {
            if i % 8 == 0 {
                base = total;
                super_.push(base);
            }
            proof {
                lemma_ones_in_words_step(ws, 8 * (i / 8), i as int);
                lemma_ones_in_words_step(ws, i as int, i + 1);
                lemma_ones_in_words_step(ws, 0, i + 1);
            }
            block.push((total - base) as u16);
            let pc: u32 = popcount(bits[i]);
            total = total + pc as u64;
            i = i + 1;
        }
        if n % 8 == 0 {
            base = total;
            super_.push(base);
        }
        proof {
            lemma_ones_in_words_step(ws, 8 * (n / 8), n as int);
        }
        block.push((total - base) as u16);
        RankBitVec { bits, super_, block }
    }

    /// The number of set bits in `[0, pos)`.
    pub fn rank1(&self, pos: usize) -> (r: u64)
        requires
            self.wf(),
            pos <= self@.len(),
        ensures
            r == count_true(self@, pos as int),
            r <= pos,
    {
        let word: usize = pos / 64;
        let bit: u64 = (pos % 64) as u64;
        proof {
            lemma_count_by_words(self.bits@, word as int, bit as nat);
            lemma_count_true_monotone(self@, 0, pos as int);
            lemma_ones_in_words_step(self.bits@, 8 * (word / 8), word as int);
            assert(self.super_@[(word / 8) as int] == ones_in_words(self.bits@, 8 * (word / 8)));
        }
        let base: u64 = self.super_[word / 8] + self.block[word] as u64;
        if bit == 0 {
            base
        } else {
            proof {
                lemma_masked_ones(self.bits@[word as int], bit, 64);
            }
            base + popcount(self.bits[word] & !(u64::MAX << bit)) as u64
        }
    }
}

} // verus!
