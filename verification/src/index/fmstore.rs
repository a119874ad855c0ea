//! The stored form of the FM-index: a header, the table of counts, the
//! transform in runs, the sampled rows, and the sampled text offsets as a
//! chain of differences.

use crate::index::fmindex::{build_occ, count_table, less_rank, FMIndex};
use crate::util::bytes::{
    lemma_u64_at, lemma_u64s_at, put_u64, put_u64s, read_u64, read_u64s, u64_at, u64s_at,
    u64s_bytes, LoadError,
};
use crate::util::rrr::{
    flags_bytes, flags_end, lemma_ascending_index, lemma_flags_stored, stored_ones,
    stored_super_counts, stored_valid, CompressedFlags,
};
use crate::util::varint::{
    decode_u64s_varint_delta, decode_varint, encode_varint, lemma_scan_advances, lemma_scan_encoded, lemma_varint_len, pow128, running_sums, varint_bytes,
    varint_concat, varint_scan, varints_from, VarintError,
};
use vstd::bytes::spec_u64_to_le_bytes;
use vstd::prelude::*;
use vstd::slice::slice_subrange;

verus! {

/// The length of the longest run of one byte that starts at `i`.
pub open spec fn run_len(s: Seq<u8>, i: int) -> int
    decreases s.len() - i,
{
    if 0 <= i && i + 1 < s.len() && s[i + 1] == s[i] {
        1 + run_len(s, i + 1)
    } else {
        1
    }
}

pub proof fn lemma_run_len(s: Seq<u8>, i: int)
    requires
        0 <= i < s.len(),
    ensures
        1 <= run_len(s, i) <= s.len() - i,
    decreases s.len() - i,
{
    if i + 1 < s.len() && s[i + 1] == s[i] {
        lemma_run_len(s, i + 1);
    }
}

/// The runs of `s` from `i` on, each as its byte and the varint of its
/// length.
pub open spec fn rle_from(s: Seq<u8>, i: int) -> Seq<u8>
    decreases s.len() - i,
    via rle_from_decreases
{
    if i < 0 || i >= s.len() {
        Seq::empty()
    } else {
        seq![s[i]] + varint_bytes(run_len(s, i) as u64) + rle_from(s, i + run_len(s, i))
    }
}

#[via_fn]
proof fn rle_from_decreases(s: Seq<u8>, i: int) {
    if 0 <= i < s.len() {
        lemma_run_len(s, i);
    }
}

/// `count` copies of `sym`.
pub open spec fn repeat(sym: u8, count: nat) -> Seq<u8> {
    Seq::new(count, |i: int| sym)
}

/// The bytes that the runs stored in `buf` from `i` on stand for, or the
/// first varint error on the way.
pub open spec fn rle_decode(buf: Seq<u8>, i: int) -> Result<Seq<u8>, VarintError>
    decreases buf.len() - i,
    via rle_decode_decreases
{
    if i < 0 || i >= buf.len() {
        Ok(Seq::empty())
    } else {
        match varint_scan(buf, i + 1, 0, 0) {
            Err(e) => Err(e),
            Ok((v, j)) => match rle_decode(buf, j) {
                Err(e) => Err(e),
                Ok(rest) => Ok(repeat(buf[i], v % 0x1_0000_0000_0000_0000) + rest),
            },
        }
    }
}

#[via_fn]
proof fn rle_decode_decreases(buf: Seq<u8>, i: int) {
    lemma_scan_advances(buf, i + 1, 0, 0);
}

/// Each value as its difference to the one before it, reduced to 64 bits;
/// the first as it is.
pub open spec fn wrapping_deltas(s: Seq<u64>) -> Seq<u64> {
    Seq::new(
        s.len(),
        |i: int|
            if i == 0 {
                s[0]
            } else {
                ((s[i] - s[i - 1]) % 0x1_0000_0000_0000_0000) as u64
            },
    )
}

/// Scanning where an encoding stands yields the encoded value.
proof fn lemma_scan_value(pre: Seq<u8>, x: u64, suf: Seq<u8>)
    ensures
        varint_scan(pre + varint_bytes(x) + suf, pre.len() as int, 0, 0) == Ok::<
            (nat, int),
            VarintError,
        >((x as nat, (pre.len() + varint_bytes(x).len()) as int)),
        varint_bytes(x).len() >= 1,
{
    lemma_varint_len(x);
    lemma_scan_encoded(pre, x, suf, 0, 0);
    assert(pow128(0) == 1);
    assert(x * 1 == x);
}

/// A run holds one byte throughout.
pub proof fn lemma_run_same(s: Seq<u8>, i: int, j: int)
    requires
        0 <= i <= j < i + run_len(s, i),
        i < s.len(),
    ensures
        j < s.len(),
        s[j] == s[i],
    decreases j - i,
{
    lemma_run_len(s, i);
    if j > i {
        lemma_run_same(s, i + 1, j);
    }
}

/// Reading back the runs of a sequence gives the sequence.
pub proof fn lemma_rle_roundtrip(pre: Seq<u8>, s: Seq<u8>, i: int)
    requires
        0 <= i <= s.len(),
        s.len() <= u64::MAX,
    ensures
        rle_decode(pre + rle_from(s, i), pre.len() as int) == Ok::<Seq<u8>, VarintError>(s.skip(i)),
    decreases s.len() - i,
{
    let all = pre + rle_from(s, i);
    if i == s.len() {
        assert(all =~= pre);
        assert(s.skip(i) =~= Seq::<u8>::empty());
    } else {
        lemma_run_len(s, i);
        let run = run_len(s, i);
        let rest = rle_from(s, i + run);
        let pre1 = pre.push(s[i]);
        let pre2 = pre1 + varint_bytes(run as u64);
        assert(all[pre.len() as int] == s[i] && (pre.len() as int) < all.len()) by {
            assert(all =~= pre + (seq![s[i]] + varint_bytes(run as u64) + rest));
        }
        assert(varint_scan(all, (pre.len() + 1) as int, 0, 0) == Ok::<(nat, int), VarintError>(
            (run as nat, pre2.len() as int),
        )) by {
            lemma_scan_value(pre1, run as u64, rest);
            assert(pre1 + varint_bytes(run as u64) + rest =~= all);
        }
        assert(rle_decode(all, pre2.len() as int) == Ok::<Seq<u8>, VarintError>(s.skip(i + run)))
            by {
            lemma_rle_roundtrip(pre2, s, i + run);
            assert(pre2 + rest =~= all);
        }
        assert(repeat(s[i], run as nat) + s.skip(i + run) =~= s.skip(i)) by {
            assert forall|j: int| i <= j < i + run implies #[trigger] s[j] == s[i] by {
                lemma_run_same(s, i, j);
            }
            let whole = repeat(s[i], run as nat) + s.skip(i + run);
            assert forall|k: int| 0 <= k < whole.len() implies whole[k] == s.skip(i)[k] by {
                if k < run {
                    assert(s[i + k] == s[i]);
                }
            }
        }
    }
}

/// The varints of a list, written one after the other, start with the
/// varint of the first.
pub proof fn lemma_concat_front(ds: Seq<u64>)
    requires
        ds.len() > 0,
    ensures
        varint_concat(ds) == varint_bytes(ds[0]) + varint_concat(ds.drop_first()),
    decreases ds.len(),
{
    if ds.len() == 1 {
        assert(varint_concat(ds.drop_last()) =~= Seq::<u8>::empty());
        assert(varint_concat(ds.drop_first()) =~= Seq::<u8>::empty());
        assert(varint_concat(ds) =~= varint_bytes(ds[0]) + varint_concat(ds.drop_first()));
    } else {
        lemma_concat_front(ds.drop_last());
        assert(ds.drop_first().drop_last() =~= ds.drop_last().drop_first());
        assert(ds.drop_first().last() == ds.last());
        assert(varint_concat(ds) =~= varint_bytes(ds[0]) + varint_concat(ds.drop_first()));
    }
}

/// Reading back varints written one after the other gives their values.
pub proof fn lemma_varints_roundtrip(pre: Seq<u8>, ds: Seq<u64>)
    ensures
        varints_from(pre + varint_concat(ds), pre.len() as int) == Ok::<Seq<u64>, VarintError>(ds),
    decreases ds.len(),
{
    let all = pre + varint_concat(ds);
    if ds.len() == 0 {
        assert(all =~= pre);
        assert(ds =~= Seq::<u64>::empty());
    } else {
        lemma_concat_front(ds);
        let rest = varint_concat(ds.drop_first());
        let pre2 = pre + varint_bytes(ds[0]);
        assert(varint_scan(all, pre.len() as int, 0, 0) == Ok::<(nat, int), VarintError>(
            (ds[0] as nat, pre2.len() as int),
        ) && (pre.len() as int) < all.len()) by {
            lemma_scan_value(pre, ds[0], rest);
            assert(pre + varint_bytes(ds[0]) + rest =~= all);
        }
        assert(varints_from(all, pre2.len() as int) == Ok::<Seq<u64>, VarintError>(
            ds.drop_first(),
        )) by {
            lemma_varints_roundtrip(pre2, ds.drop_first());
            assert(pre2 + rest =~= all);
        }
        assert(seq![ds[0]] + ds.drop_first() =~= ds);
        assert((ds[0] as nat % 0x1_0000_0000_0000_0000) as u64 == ds[0]);
        assert(varints_from(all, pre.len() as int) == Ok::<Seq<u64>, VarintError>(
            seq![ds[0]] + ds.drop_first(),
        ));
    }
}

/// Summing up the differences of any values, both reduced to 64 bits,
/// gives the values back.
pub proof fn lemma_wrapping_delta_roundtrip(s: Seq<u64>)
    ensures
        running_sums(wrapping_deltas(s)) == s,
    decreases s.len(),
{
    if s.len() > 0 {
        let t = s.drop_last();
        assert(wrapping_deltas(s).drop_last() =~= wrapping_deltas(t));
        lemma_wrapping_delta_roundtrip(t);
        assert(running_sums(wrapping_deltas(s)) =~= s);
    } else {
        assert(running_sums(wrapping_deltas(s)) =~= s);
    }
}

/// Two indexes with the same transform and the same samples give the same
/// text offset for every row.
pub proof fn lemma_same_locate(a: &FMIndex, b: &FMIndex, r: int, steps: int, fuel: nat)
    requires
        a.bwt@ == b.bwt@,
        a.n == b.n,
        a.samples() == b.samples(),
        a.sample_ranks() == b.sample_ranks(),
    ensures
        a.locate_walk(r, steps, fuel) == b.locate_walk(r, steps, fuel),
    decreases fuel,
{
    if !a.sampled(r) && fuel > 0 {
        lemma_same_locate(a, b, crate::index::fmindex::lf_of(a.bwt@, r), steps + 1, (fuel - 1) as nat);
    }
}

/// The four bytes that every stored index starts with.
pub open spec fn magic() -> Seq<u8> {
    seq![0x46u8, 0x4Du8, 0x58u8, 0x32u8]
}

/// Text offsets as 64-bit values.
pub open spec fn widen(s: Seq<usize>) -> Seq<u64> {
    Seq::new(s.len(), |i: int| s[i] as u64)
}

/// The stored form of an index.
pub open spec fn fm_bytes(fm: &FMIndex) -> Seq<u8> {
    let rle = rle_from(fm.bwt@, 0);
    let sv = varint_concat(wrapping_deltas(widen(fm.samp_pos@)));
    magic() + spec_u64_to_le_bytes(fm.n as u64) + spec_u64_to_le_bytes(fm.sa_sample as u64)
        + u64s_bytes(fm.c@) + spec_u64_to_le_bytes(rle.len() as u64) + rle + flags_bytes(
        fm.samp_flags.nbits(),
        fm.samp_flags.super_counts(),
        fm.samp_flags.ones(),
    ) + spec_u64_to_le_bytes(sv.len() as u64) + sv
}

/// The offset of the run-length coded transform in a stored index.
pub open spec fn rle_at() -> int {
    2076
}

/// The run-length coded transform of a stored index.
pub open spec fn stored_rle(bytes: Seq<u8>) -> Seq<u8> {
    bytes.subrange(rle_at(), rle_at() + u64_at(bytes, 2068))
}

/// The offset of the sampled rows in a stored index.
pub open spec fn flags_at(bytes: Seq<u8>) -> int {
    rle_at() + u64_at(bytes, 2068)
}

/// The coded text offsets of the sampled rows of a stored index.
pub open spec fn stored_sample_bytes(bytes: Seq<u8>) -> Seq<u8> {
    let at = flags_end(bytes, flags_at(bytes)).unwrap();
    bytes.subrange(at + 8, at + 8 + u64_at(bytes, at))
}

/// Whether what a stored index holds fits together: the table counts the
/// transform's bytes, the sampled rows are rows of it, and every sampled row
/// has a text offset inside the text.
pub open spec fn parts_fit(
    n: int,
    c: Seq<u64>,
    bwt: Seq<u8>,
    nbits: int,
    ones: Seq<u32>,
    samples: Seq<u64>,
) -> bool {
    &&& nbits == n
    &&& samples.len() == ones.len()
    &&& forall|i: int| 0 <= i < samples.len() ==> #[trigger] samples[i] < n
    &&& forall|ch: int| 0 <= ch < 256 ==> #[trigger] c[ch] == less_rank(bwt, ch, n)
}

/// The first fault met when reading `bytes` as a stored index, front to
/// back; `None` where there is none.
pub open spec fn load_fault(bytes: Seq<u8>) -> Option<LoadError> {
    if bytes.len() < 4 {
        Some(LoadError::ShortRead)
    } else if bytes.subrange(0, 4) != magic() {
        Some(LoadError::BadMagic)
    } else if bytes.len() < rle_at() {
        Some(LoadError::ShortRead)
    } else if u64_at(bytes, 4) == 0 || u64_at(bytes, 4) > u32::MAX || u64_at(bytes, 12)
        > usize::MAX {
        Some(LoadError::Malformed)
    } else if flags_at(bytes) > bytes.len() {
        Some(LoadError::ShortRead)
    } else {
        match rle_decode(stored_rle(bytes), 0) {
            Err(e) => Some(LoadError::Varint(e)),
            Ok(bwt) => if bwt.len() != u64_at(bytes, 4) {
                Some(LoadError::BwtLengthMismatch)
            } else {
                match flags_end(bytes, flags_at(bytes)) {
                    None => Some(LoadError::ShortRead),
                    Some(end) => if !stored_valid(bytes, flags_at(bytes)) {
                        Some(LoadError::Malformed)
                    } else if end + 8 > bytes.len() || end + 8 + u64_at(bytes, end)
                        > bytes.len() {
                        Some(LoadError::ShortRead)
                    } else {
                        match varints_from(stored_sample_bytes(bytes), 0) {
                            Err(e) => Some(LoadError::Varint(e)),
                            Ok(ds) => if parts_fit(
                                u64_at(bytes, 4) as int,
                                u64s_at(bytes, 20, 256),
                                bwt,
                                u64_at(bytes, flags_at(bytes)) as int,
                                stored_ones(bytes, flags_at(bytes)),
                                running_sums(ds),
                            ) {
                                None
                            } else {
                                Some(LoadError::Malformed)
                            },
                        }
                    },
                }
            },
        }
    }
}

/// What an index read from `bytes` holds: the stored length, period, table,
/// transform, sampled rows and text offsets.
pub open spec fn read_from(fm: &FMIndex, bytes: Seq<u8>) -> bool {
    &&& load_fault(bytes) is None
    &&& fm.wf()
    &&& fm.n == u64_at(bytes, 4)
    &&& fm.sa_sample == (if u64_at(bytes, 12) == 0 {
        1
    } else {
        u64_at(bytes, 12) as int
    })
    &&& fm.c@ == u64s_at(bytes, 20, 256)
    &&& rle_decode(stored_rle(bytes), 0) == Ok::<Seq<u8>, VarintError>(fm.bwt@)
    &&& fm.samp_flags.ones() == stored_ones(bytes, flags_at(bytes))
    &&& fm.samp_flags.super_counts() == stored_super_counts(bytes, flags_at(bytes))
    &&& varints_from(stored_sample_bytes(bytes), 0) matches Ok(ds) && widen(fm.samp_pos@)
        == running_sums(ds)
}

pub proof fn lemma_rle_len(s: Seq<u8>, i: int)
    requires
        0 <= i <= s.len(),
    ensures
        rle_from(s, i).len() <= 11 * (s.len() - i),
    decreases s.len() - i,
{
    if i < s.len() {
        lemma_run_len(s, i);
        lemma_varint_len(run_len(s, i) as u64);
        lemma_rle_len(s, i + run_len(s, i));
    }
}

pub proof fn lemma_concat_len(ds: Seq<u64>)
    ensures
        varint_concat(ds).len() <= 10 * ds.len(),
    decreases ds.len(),
{
    if ds.len() > 0 {
        lemma_varint_len(ds.last());
        lemma_concat_len(ds.drop_last());
    }
}

/// The stored form of a well-formed index has no fault, and what it stores
/// is what the index holds.
#[verifier::rlimit(80)]
#[verifier::spinoff_prover]
pub proof fn lemma_store_load(fm: &FMIndex)
    requires
        fm.wf(),
    ensures
        load_fault(fm_bytes(fm)) is None,
        u64_at(fm_bytes(fm), 4) == fm.n,
        u64_at(fm_bytes(fm), 12) == fm.sa_sample,
        u64s_at(fm_bytes(fm), 20, 256) == fm.c@,
        rle_decode(stored_rle(fm_bytes(fm)), 0) == Ok::<Seq<u8>, VarintError>(fm.bwt@),
        stored_ones(fm_bytes(fm), flags_at(fm_bytes(fm))) == fm.samp_flags.ones(),
        varints_from(stored_sample_bytes(fm_bytes(fm)), 0) == Ok::<Seq<u64>, VarintError>(
            wrapping_deltas(widen(fm.samp_pos@)),
        ),
{
    let all = fm_bytes(fm);
    let n = fm.n as u64;
    let k = fm.sa_sample as u64;
    let rle = rle_from(fm.bwt@, 0);
    let w = widen(fm.samp_pos@);
    let ds = wrapping_deltas(w);
    let sv = varint_concat(ds);
    let nbits = fm.samp_flags.nbits();
    let sc = fm.samp_flags.super_counts();
    let ones = fm.samp_flags.ones();
    let fl = flags_bytes(nbits, sc, ones);
    let a = spec_u64_to_le_bytes(n);
    let b = spec_u64_to_le_bytes(k);
    let c = u64s_bytes(fm.c@);
    let d = spec_u64_to_le_bytes(rle.len() as u64);
    let e = spec_u64_to_le_bytes(sv.len() as u64);
    let m = magic();
    lemma_rle_len(fm.bwt@, 0);
    lemma_concat_len(ds);
    if ones.len() > 0 {
        lemma_ascending_index(ones, ones.len() - 1);
    }
    assert(all == m + a + b + c + d + rle + fl + e + sv);
    assert(u64_at(all, 4) == n && a.len() == 8) by {
        lemma_u64_at(m, n, b + c + d + rle + fl + e + sv);
        assert(m + a + (b + c + d + rle + fl + e + sv) =~= all);
    }
    assert(u64_at(all, 12) == k && b.len() == 8) by {
        lemma_u64_at(m + a, k, c + d + rle + fl + e + sv);
        assert(m + a + b + (c + d + rle + fl + e + sv) =~= all);
    }
    assert(u64s_at(all, 20, 256) == fm.c@ && c.len() == 2048) by {
        lemma_u64s_at(m + a + b, fm.c@, d + rle + fl + e + sv);
        assert(m + a + b + c + (d + rle + fl + e + sv) =~= all);
    }
    assert(u64_at(all, 2068) == rle.len() && d.len() == 8) by {
        lemma_u64_at(m + a + b + c, rle.len() as u64, rle + fl + e + sv);
        assert(m + a + b + c + d + (rle + fl + e + sv) =~= all);
    }
    let head = m + a + b + c + d;
    assert(head.len() == 2076);
    assert(stored_rle(all) =~= rle);
    assert(rle_decode(rle, 0) == Ok::<Seq<u8>, VarintError>(fm.bwt@)) by {
        lemma_rle_roundtrip(Seq::empty(), fm.bwt@, 0);
        assert(Seq::<u8>::empty() + rle =~= rle);
        assert(fm.bwt@.skip(0) =~= fm.bwt@);
    }
    let fa: int = 2076 + rle.len() as int;
    assert(flags_at(all) == fa);
    assert(flags_end(all, fa) == Some(fa + fl.len()) && u64_at(all, fa) == nbits
        && stored_super_counts(all, fa) == sc && stored_ones(all, fa) == ones) by {
        lemma_flags_stored(head + rle, nbits, sc, ones, e + sv);
        assert(head + rle + fl + (e + sv) =~= all);
    }
    let fe: int = fa + fl.len() as int;
    assert(u64_at(all, fe) == sv.len() && e.len() == 8) by {
        lemma_u64_at(head + rle + fl, sv.len() as u64, sv);
        assert(head + rle + fl + e + sv =~= all);
    }
    assert(all.len() == fe + 8 + sv.len());
    assert(stored_sample_bytes(all) =~= sv);
    assert(varints_from(sv, 0) == Ok::<Seq<u64>, VarintError>(ds)) by {
        lemma_varints_roundtrip(Seq::empty(), ds);
        assert(Seq::<u8>::empty() + sv =~= sv);
    }
    lemma_wrapping_delta_roundtrip(w);
    assert(all.subrange(0, 4) =~= m);
    assert(parts_fit(n as int, fm.c@, fm.bwt@, nbits, ones, w)) by {
        assert forall|i: int| 0 <= i < w.len() implies #[trigger] w[i] < n by {
            assert(fm.samp_pos@[i] < fm.n);
        }
    }
    assert(stored_valid(all, fa));
}

/// Storing an index and reading it back gives an index that holds the same
/// transform, table and samples, and so the same ranges and text offsets for
/// every pattern and row.
pub proof fn lemma_round_trip(fm: &FMIndex, loaded: &FMIndex)
    requires
        fm.wf(),
        read_from(loaded, fm_bytes(fm)),
    ensures
        loaded.n == fm.n,
        loaded.sa_sample == fm.sa_sample,
        loaded.bwt@ == fm.bwt@,
        loaded.c@ == fm.c@,
        loaded.sample_ranks() == fm.sample_ranks(),
        loaded.samples() == fm.samples(),
        forall|r: int| #[trigger] loaded.locate_spec(r) == fm.locate_spec(r),
{
    lemma_store_load(fm);
    lemma_wrapping_delta_roundtrip(widen(fm.samp_pos@));
    assert(widen(loaded.samp_pos@) == widen(fm.samp_pos@));
    assert(loaded.samp_pos@ =~= fm.samp_pos@) by {
        assert(widen(loaded.samp_pos@).len() == widen(fm.samp_pos@).len());
        assert forall|i: int| 0 <= i < fm.samp_pos@.len() implies loaded.samp_pos@[i]
            == fm.samp_pos@[i] by {
            assert(widen(loaded.samp_pos@)[i] == widen(fm.samp_pos@)[i]);
        }
    }
    assert forall|r: int| #[trigger] loaded.locate_spec(r) == fm.locate_spec(r) by {
        lemma_same_locate(loaded, fm, r, 0, fm.n as nat);
    }
}

/// Decides whether the parts read from a stored index fit together.
fn check_parts(
    n: usize,
    c: &Vec<u64>,
    bwt: &Vec<u8>,
    flags: &CompressedFlags,
    samples: &Vec<u64>,
) -> (ok: bool)
    requires
        c@.len() == 256,
        bwt@.len() == n,
        flags.wf(),
    ensures
        ok == parts_fit(n as int, c@, bwt@, flags.nbits(), flags.ones(), samples@),
{
    if flags.num_bits() != n || samples.len() != flags.num_ones() {
        return false;
    }
    let mut i: usize = 0;
    while i < samples.len()
        invariant
            i <= samples@.len(),
            forall|j: int| 0 <= j < i ==> #[trigger] samples@[j] < n,
        decreases samples@.len() - i,
    {
        if samples[i] >= n as u64 {
            return false;
        }
        i = i + 1;
    }
    let table = count_table(bwt.as_slice());
    let mut ch: usize = 0;
    while ch < 256
        invariant
            ch <= 256,
            c@.len() == 256,
            table@.len() == 256,
            bwt@.len() == n,
            forall|d: int| 0 <= d < 256 ==> #[trigger] table@[d] == less_rank(bwt@, d, n as int),
            forall|d: int| 0 <= d < ch ==> #[trigger] c@[d] == less_rank(bwt@, d, n as int),
        decreases 256 - ch,
    {
        if c[ch] != table[ch] {
            return false;
        }
        ch = ch + 1;
    }
    true
}

/// The text offsets as the varints of their chain of differences.
fn encode_samples(samples: &Vec<usize>) -> (out: Vec<u8>)
    ensures
        out@ == varint_concat(wrapping_deltas(widen(samples@))),
{
    let ghost w = widen(samples@);
    let mut out: Vec<u8> = Vec::new();
    let mut prev: u64 = 0;
    let mut i: usize = 0;
    while i < samples.len()
        invariant
            i <= samples@.len(),
            w == widen(samples@),
            i > 0 ==> prev == w[i - 1],
            out@ == varint_concat(wrapping_deltas(w).take(i as int)),
        decreases samples@.len() - i,
    {
        let v: u64 = samples[i] as u64;
        let d: u64 = if i == 0 || v >= prev {
            if i == 0 {
                v
            } else {
                v - prev
            }
        } else {
            (u64::MAX - (prev - v)) + 1
        };
        encode_varint(d, &mut out);
        prev = v;
        i = i + 1;
        proof {
            assert(wrapping_deltas(w).take(i as int).drop_last() =~= wrapping_deltas(w).take(i - 1));
            assert(wrapping_deltas(w).take(i as int).last() == d);
        }
    }
    proof {
        assert(wrapping_deltas(w).take(i as int) =~= wrapping_deltas(w));
    }
    out
}

impl FMIndex {
    /// The stored form of the index.
    pub fn to_bytes(&self) -> (out: Vec<u8>)
        ensures
            out@ == fm_bytes(self),
    {
        let mut out: Vec<u8> = Vec::new();
        out.push(0x46);
        out.push(0x4D);
        out.push(0x58);
        out.push(0x32);
        put_u64(self.n as u64, &mut out);
        put_u64(self.sa_sample as u64, &mut out);
        put_u64s(&self.c, &mut out);
        let rle = Self::encode_bwt_rle(self.bwt.as_slice());
        put_u64(rle.len() as u64, &mut out);
        out.extend_from_slice(rle.as_slice());
        self.samp_flags.save(&mut out);
        let sv = encode_samples(&self.samp_pos);
        put_u64(sv.len() as u64, &mut out);
        out.extend_from_slice(sv.as_slice());
        proof {
            assert(out@ =~= fm_bytes(self));
        }
        out
    }

    /// Reads a stored index and rebuilds the rank bitvectors from the
    /// transform. Fails with the first fault met, front to back.
    pub fn from_bytes(bytes: &[u8]) -> (r: Result<Self, LoadError>)
        ensures
            match r {
                Ok(fm) => read_from(&fm, bytes@),
                Err(e) => load_fault(bytes@) == Some(e),
            },
    {
        if bytes.len() < 4 {
            return Err(LoadError::ShortRead);
        }
        if bytes[0] != 0x46 || bytes[1] != 0x4D || bytes[2] != 0x58 || bytes[3] != 0x32 {
            proof {
                let m = bytes@.subrange(0, 4);
                assert(m[0] == bytes@[0] && m[1] == bytes@[1] && m[2] == bytes@[2] && m[3]
                    == bytes@[3]);
            }
            return Err(LoadError::BadMagic);
        }
        proof {
            assert(bytes@.subrange(0, 4) =~= magic());
        }
        if bytes.len() < 2076 {
            return Err(LoadError::ShortRead);
        }
        let (n64, _) = match read_u64(bytes, 4) {
            Some(x) => x,
            None => {
                return Err(LoadError::ShortRead);
            },
        };
        let (k64, _) = match read_u64(bytes, 12) {
            Some(x) => x,
            None => {
                return Err(LoadError::ShortRead);
            },
        };
        let (c, _) = match read_u64s(bytes, 20, 256) {
            Some(x) => x,
            None => {
                return Err(LoadError::ShortRead);
            },
        };
        let (rle_len, _) = match read_u64(bytes, 2068) {
            Some(x) => x,
            None => {
                return Err(LoadError::ShortRead);
            },
        };
        if n64 == 0 || n64 > u32::MAX as u64 || k64 > usize::MAX as u64 {
            return Err(LoadError::Malformed);
        }
        let n: usize = n64 as usize;
        if rle_len > (bytes.len() - 2076) as u64 {
            return Err(LoadError::ShortRead);
        }
        let fa: usize = 2076 + rle_len as usize;
        let bwt = match Self::decode_bwt_rle(slice_subrange(bytes, 2076, fa), n) {
            Ok(b) => b,
            Err(e) => {
                return Err(e);
            },
        };
        let (samp_flags, end) = match CompressedFlags::load(bytes, fa) {
            Ok(x) => x,
            Err(e) => {
                return Err(e);
            },
        };
        let (sv_len, sv_at) = match read_u64(bytes, end) {
            Some(x) => x,
            None => {
                return Err(LoadError::ShortRead);
            },
        };
        if sv_len > (bytes.len() - sv_at) as u64 {
            return Err(LoadError::ShortRead);
        }
        let samples = match decode_u64s_varint_delta(
            slice_subrange(bytes, sv_at, sv_at + sv_len as usize),
        ) {
            Ok(v) => v,
            Err(e) => {
                return Err(LoadError::Varint(e));
            },
        };
        if !check_parts(n, &c, &bwt, &samp_flags, &samples) {
            return Err(LoadError::Malformed);
        }
        let mut samp_pos: Vec<usize> = Vec::new();
        let mut i: usize = 0;
        while i < samples.len()
            invariant
                i <= samples@.len(),
                n <= u32::MAX,
                forall|j: int| 0 <= j < samples@.len() ==> #[trigger] samples@[j] < n,
                samp_pos@.len() == i,
                forall|j: int| 0 <= j < i ==> #[trigger] samp_pos@[j] == samples@[j],
            decreases samples@.len() - i,
        {
            samp_pos.push(samples[i] as usize);
            i = i + 1;
        }
        proof {
            assert(widen(samp_pos@) =~= samples@);
        }
        let occ = build_occ(bwt.as_slice());
        let sa_sample: usize = if k64 == 0 {
            1
        } else {
            k64 as usize
        };
        Ok(FMIndex { c, occ, bwt, n, sa_sample, samp_flags, samp_pos })
    }

    /// Writes `bwt` as runs: for each run its byte and the varint of its
    /// length.
    pub fn encode_bwt_rle(bwt: &[u8]) -> (out: Vec<u8>)
        ensures
            out@ == rle_from(bwt@, 0),
    {
        let n: usize = bwt.len();
        let mut out: Vec<u8> = Vec::new();
        let mut i: usize = 0;
        while i < n
            invariant
                i <= n,
                n == bwt@.len(),
                rle_from(bwt@, 0) == out@ + rle_from(bwt@, i as int),
            decreases n - i,
        {
            let sym: u8 = bwt[i];
            let mut j: usize = i + 1;
            while j < n && bwt[j] == sym
                invariant
                    i < j <= n,
                    n == bwt@.len(),
                    bwt@[j - 1] == sym,
                    run_len(bwt@, i as int) == (j - i - 1) + run_len(bwt@, j - 1),
                decreases n - j,
            {
                j = j + 1;
            }
            let ghost before = out@;
            out.push(sym);
            encode_varint((j - i) as u64, &mut out);
            proof {
                lemma_run_len(bwt@, i as int);
                assert(run_len(bwt@, i as int) == j - i);
                assert(before + (seq![sym] + varint_bytes((j - i) as u64) + rle_from(bwt@, j as int))
                    =~= out@ + rle_from(bwt@, j as int));
            }
            i = j;
        }
        proof {
            assert(out@ + Seq::<u8>::empty() =~= out@);
        }
        out
    }

    /// Reads runs from `buf` and writes them out. The result must have
    /// exactly `n` bytes.
    pub fn decode_bwt_rle(buf: &[u8], n: usize) -> (r: Result<Vec<u8>, LoadError>)
        ensures
            match rle_decode(buf@, 0) {
                Err(e) => r == Err::<Vec<u8>, LoadError>(LoadError::Varint(e)),
                Ok(s) => if s.len() == n {
                    r matches Ok(v) && v@ == s
                } else {
                    r == Err::<Vec<u8>, LoadError>(LoadError::BwtLengthMismatch)
                },
            },
    {
        let mut out: Vec<u8> = Vec::new();
        let ghost mut prefix: Seq<u8> = Seq::empty();
        let mut too_long: bool = false;
        let mut i: usize = 0;
        while i < buf.len()
            invariant
                i <= buf@.len(),
                !too_long ==> out@ == prefix && prefix.len() <= n,
                too_long ==> prefix.len() > n,
                rle_decode(buf@, 0) == (match rle_decode(buf@, i as int) {
                    Err(e) => Err::<Seq<u8>, VarintError>(e),
                    Ok(rest) => Ok(prefix + rest),
                }),
            decreases buf@.len() - i,
        {
            let sym: u8 = buf[i];
            match decode_varint(buf, i + 1) {
                Err(e) => {
                    return Err(LoadError::Varint(e));
                },
                Ok((run, j)) => {
                    proof {
                        lemma_scan_advances(buf@, i + 1, 0, 0);
                        match rle_decode(buf@, j as int) {
                            Ok(rest) => {
                                assert((prefix + repeat(sym, run as nat)) + rest =~= prefix + (repeat(
                                    sym,
                                    run as nat,
                                ) + rest));
                            },
                            Err(_) => {},
                        }
                    }
                    if !too_long && run <= (n - out.len()) as u64 {
                        let mut t: u64 = 0;
                        while t < run
                            invariant
                                t <= run,
                                prefix.len() + run <= n,
                                out@ == prefix + repeat(sym, t as nat),
                            decreases run - t,
                        {
                            out.push(sym);
                            t = t + 1;
                            proof {
                                assert(out@ =~= prefix + repeat(sym, t as nat));
                            }
                        }
                    } else {
                        too_long = true;
                    }
                    proof {
                        prefix = prefix + repeat(sym, run as nat);
                    }
                    i = j;
                },
            }
        }
        proof {
            assert(prefix + Seq::<u8>::empty() =~= prefix);
        }
        if too_long || out.len() != n {
            return Err(LoadError::BwtLengthMismatch);
        }
        Ok(out)
    }
}

} // verus!
