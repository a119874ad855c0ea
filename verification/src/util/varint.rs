//! Variable-byte unsigned integers (little-endian base 128) and delta chains.

use vstd::prelude::*;

verus! {

/// Why a varint could not be read.
#[derive(Clone, Copy, Debug, PartialEq, Eq, Structural)]
pub enum VarintError {
    /// The buffer ended in the middle of a varint.
    VarintOverflow,
    /// More than nine continuation bytes in a row.
    VarintTooLong,
}

/// `128^k`.
pub open spec fn pow128(k: nat) -> nat
    decreases k,
{
    if k == 0 {
        1
    } else {
        128 * pow128((k - 1) as nat)
    }
}

/// The encoding of `n`: seven payload bits per byte, low group first, the top
/// bit set on every byte but the last.
pub open spec fn varint_bytes(n: u64) -> Seq<u8>
    decreases n,
{
    if n < 128 {
        seq![n as u8]
    } else {
        seq![(n % 128 + 128) as u8] + varint_bytes(n / 128)
    }
}

/// Reads one varint from `bytes` at `i`, where `k` groups with total `acc`
/// were already read. Gives the unreduced value and the offset after it.
pub open spec fn varint_scan(bytes: Seq<u8>, i: int, k: nat, acc: nat) -> Result<
    (nat, int),
    VarintError,
>
    decreases bytes.len() - i,
{
    if i < 0 || i >= bytes.len() {
        Err(VarintError::VarintOverflow)
    } else {
        let sum = acc + (bytes[i] % 128) as nat * pow128(k);
        if bytes[i] < 128 {
            Ok((sum, i + 1))
        } else if k >= 9 {
            Err(VarintError::VarintTooLong)
        } else {
            varint_scan(bytes, i + 1, k + 1, sum)
        }
    }
}

/// What `decode_varint` returns: the value reduced to 64 bits and the new
/// offset, or the error.
pub open spec fn varint_at(bytes: Seq<u8>, i: int) -> Result<(u64, usize), VarintError> {
    match varint_scan(bytes, i, 0, 0) {
        Ok((v, j)) => Ok(((v % 0x1_0000_0000_0000_0000) as u64, j as usize)),
        Err(e) => Err(e),
    }
}

/// The value read at `i` and the offset after it; `None` on either error.
pub open spec fn varint_value(bytes: Seq<u8>, i: int) -> Option<(u64, int)> {
    match varint_scan(bytes, i, 0, 0) {
        Ok((v, j)) => Some(((v % 0x1_0000_0000_0000_0000) as u64, j)),
        Err(_) => None,
    }
}

pub proof fn lemma_pow128_bound(k: nat)
    requires
        k <= 10,
    ensures
        0 < pow128(k) <= 0x400_0000_0000_0000_0000,
        k <= 9 ==> pow128(k) <= 0x8000_0000_0000_0000,
{
    reveal_with_fuel(pow128, 11);
}

/// The number of bytes in the encoding of any value is between 1 and 10.
pub proof fn lemma_varint_len(n: u64)
    ensures
        1 <= varint_bytes(n).len() <= 10,
{
    reveal_with_fuel(pow128, 11);
    lemma_varint_len_below(n, 10);
}

proof fn lemma_varint_len_below(n: u64, k: nat)
    requires
        1 <= k <= 10,
        n < pow128(k),
    ensures
        1 <= varint_bytes(n).len() <= k,
    decreases k,
{
    lemma_pow128_bound(k);
    if n >= 128 {
        assert(k >= 2) by {
            if k == 1 {
                assert(pow128(1) == 128 * pow128(0));
            }
        }
        lemma_varint_len_below(n / 128, (k - 1) as nat);
    }
}

/// Scanning from the start of an embedded encoding of `x` yields `x`, scaled
/// by the groups already read, and stops right behind it.
pub proof fn lemma_scan_encoded(pre: Seq<u8>, x: u64, suf: Seq<u8>, k: nat, acc: nat)
    requires
        k + varint_bytes(x).len() <= 10,
    ensures
        varint_scan(pre + varint_bytes(x) + suf, pre.len() as int, k, acc) == Ok::<
            (nat, int),
            VarintError,
        >(((acc + x * pow128(k)) as nat, (pre.len() + varint_bytes(x).len()) as int)),
    decreases x,
{
    let enc = varint_bytes(x);
    let all = pre + enc + suf;
    let i = pre.len() as int;
    assert(all[i] == enc[0]);
    if x < 128 {
        assert(enc[0] == x as u8);
        assert((x as u8 % 128) as nat == x);
    } else {
        let head = (x % 128 + 128) as u8;
        let rest = varint_bytes(x / 128);
        assert(enc[0] == head);
        assert((head % 128) as nat == x % 128);
        let pre2 = pre.push(head);
        assert(pre2 + rest + suf =~= all);
        lemma_scan_encoded(pre2, (x / 128) as u64, suf, k + 1, acc + (x % 128) as nat * pow128(k));
        assert(pow128(k + 1) == 128 * pow128(k));
        assert((x % 128) as nat * pow128(k) + (x / 128) as nat * (128 * pow128(k)) == x * pow128(
            k,
        )) by (nonlinear_arith);
    }
}

/// Decoding an encoding gives the value back, with the offset moved by the
/// encoding's length, wherever the encoding stands in a buffer.
pub proof fn lemma_varint_roundtrip(pre: Seq<u8>, x: u64, suf: Seq<u8>)
    requires
        pre.len() + varint_bytes(x).len() <= usize::MAX,
    ensures
        varint_at(pre + varint_bytes(x) + suf, pre.len() as int) == Ok::<(u64, usize), VarintError>(
            (x, (pre.len() + varint_bytes(x).len()) as usize),
        ),
{
    lemma_varint_len(x);
    lemma_scan_encoded(pre, x, suf, 0, 0);
    assert(pow128(0) == 1);
    assert(x * 1 == x);
}

/// Appends the encoding of `n` to `out`.
pub fn encode_varint(n: u64, out: &mut Vec<u8>)
    ensures
        final(out)@ == old(out)@ + varint_bytes(n),
{
    let ghost start = out@;
    let mut m: u64 = n;
    while m >= 128
        invariant
            out@ + varint_bytes(m) == start + varint_bytes(n),
        decreases m,
    {
        let ghost before = out@;
        out.push((m % 128 + 128) as u8);
        proof {
            assert(out@ + varint_bytes(m / 128) =~= before + varint_bytes(m));
        }
        m = m / 128;
    }
    out.push(m as u8);
    proof {
        assert(varint_bytes(m) =~= seq![m as u8]);
    }
}

/// Reads one varint from `bytes` at offset `i`: the value and the offset of
/// the byte after it.
pub fn decode_varint(bytes: &[u8], i: usize) -> (r: Result<(u64, usize), VarintError>)
    ensures
        r == varint_at(bytes@, i as int),
        r matches Ok((_, j)) ==> i < j <= bytes@.len() && j - i <= 10,
        r matches Ok((v, j)) ==> varint_value(bytes@, i as int) == Some((v, j as int)),
        r is Err ==> varint_value(bytes@, i as int) is None,
{
    proof {
        lemma_scan_advances(bytes@, i as int, 0, 0);
    }
    let mut pos: usize = i;
    let mut k: usize = 0;
    let mut acc: u128 = 0;
    let mut scale: u128 = 1;
    loop
        invariant
            i <= pos,
            pos - i == k,
            k <= 9,
            scale == pow128(k as nat),
            acc < scale,
            varint_scan(bytes@, i as int, 0, 0) == varint_scan(bytes@, pos as int, k as nat, acc as nat),
        decreases 10 - k,
    {
        if pos >= bytes.len() {
            return Err(VarintError::VarintOverflow);
        }
        let b: u8 = bytes[pos];
        proof {
            lemma_pow128_bound(k as nat);
            lemma_pow128_bound((k + 1) as nat);
            assert((b % 128) as nat * pow128(k as nat) <= 127 * pow128(k as nat)) by (nonlinear_arith)
                requires
                    b % 128 <= 127,
            ;
            assert(pow128((k + 1) as nat) == 128 * pow128(k as nat));
        }
        let sum: u128 = acc + (b % 128) as u128 * scale;
        if b < 128 {
            return Ok(((sum % 0x1_0000_0000_0000_0000) as u64, pos + 1));
        }
        if k >= 9 {
            return Err(VarintError::VarintTooLong);
        }
        acc = sum;
        scale = scale * 128;
        pos = pos + 1;
        k = k + 1;
    }
}


/// A scan that succeeds stops behind where it started, inside the buffer.
pub proof fn lemma_scan_advances(bytes: Seq<u8>, i: int, k: nat, acc: nat)
    ensures
        varint_scan(bytes, i, k, acc) matches Ok((_, j)) ==> i < j <= bytes.len(),
    decreases bytes.len() - i,
{
    if 0 <= i < bytes.len() && bytes[i] >= 128 && k < 9 {
        lemma_scan_advances(bytes, i + 1, k + 1, acc + (bytes[i] % 128) as nat * pow128(k));
    }
}

/// The order on `u64` that delta chains are sorted by.
pub open spec fn leq_u64() -> spec_fn(u64, u64) -> bool {
    |a: u64, b: u64| a <= b
}

/// Each element is at least the one before it.
pub open spec fn ascending(s: Seq<u64>) -> bool {
    forall|i: int, j: int| 0 <= i <= j < s.len() ==> s[i] <= s[j]
}

/// Each element replaced by its distance to its predecessor; the first stays.
pub open spec fn deltas(s: Seq<u64>) -> Seq<u64> {
    Seq::new(
        s.len(),
        |i: int|
            if i == 0 {
                s[0]
            } else {
                (s[i] - s[i - 1]) as u64
            },
    )
}

/// Prefix sums, reduced to 64 bits.
pub open spec fn running_sums(d: Seq<u64>) -> Seq<u64>
    decreases d.len(),
{
    if d.len() == 0 {
        Seq::empty()
    } else {
        let p = running_sums(d.drop_last());
        let prev: int = if p.len() == 0 {
            0
        } else {
            p.last() as int
        };
        p.push(((prev + d.last()) % 0x1_0000_0000_0000_0000) as u64)
    }
}

/// The encodings of the values of `ds`, one after the other.
pub open spec fn varint_concat(ds: Seq<u64>) -> Seq<u8>
    decreases ds.len(),
{
    if ds.len() == 0 {
        Seq::empty()
    } else {
        varint_concat(ds.drop_last()) + varint_bytes(ds.last())
    }
}

/// The varints that fill `bytes` from offset `i` to its end, or the first
/// error met on the way.
pub open spec fn varints_from(bytes: Seq<u8>, i: int) -> Result<Seq<u64>, VarintError>
    decreases bytes.len() - i,
    via varints_from_decreases
{
    if i < 0 || i >= bytes.len() {
        Ok(Seq::empty())
    } else {
        match varint_scan(bytes, i, 0, 0) {
            Err(e) => Err(e),
            Ok((v, j)) => match varints_from(bytes, j) {
                Err(e) => Err(e),
                Ok(rest) => Ok(seq![(v % 0x1_0000_0000_0000_0000) as u64] + rest),
            },
        }
    }
}

#[via_fn]
proof fn varints_from_decreases(bytes: Seq<u8>, i: int) {
    lemma_scan_advances(bytes, i, 0, 0);
}

/// Prefix sums undo the deltas of an ascending sequence.
pub proof fn lemma_delta_roundtrip(s: Seq<u64>)
    requires
        ascending(s),
    ensures
        running_sums(deltas(s)) == s,
    decreases s.len(),
{
    if s.len() > 0 {
        let t = s.drop_last();
        assert(deltas(s).drop_last() =~= deltas(t));
        lemma_delta_roundtrip(t);
        assert(running_sums(deltas(s)) =~= s);
    } else {
        assert(running_sums(deltas(s)) =~= s);
    }
}

/// Sorting, taking deltas and summing them up again gives the sorted input;
/// on an input that is already ascending, the input itself.
pub proof fn lemma_delta_encode_decode(s: Seq<u64>)
    ensures
        running_sums(deltas(s.sort_by(leq_u64()))) == s.sort_by(leq_u64()),
        ascending(s) ==> running_sums(deltas(s.sort_by(leq_u64()))) == s,
{
    lemma_sorted_ascending(s);
    lemma_delta_roundtrip(s.sort_by(leq_u64()));
    if ascending(s) {
        s.lemma_sort_by_ensures(leq_u64());
        assert(vstd::relations::sorted_by(s, leq_u64()));
        vstd::seq_lib::lemma_sorted_unique(s, s.sort_by(leq_u64()), leq_u64());
    }
}

pub proof fn lemma_sorted_ascending(s: Seq<u64>)
    ensures
        ascending(s.sort_by(leq_u64())),
        s.sort_by(leq_u64()).len() == s.len(),
        s.sort_by(leq_u64()).to_multiset() == s.to_multiset(),
        forall|x: u64| s.contains(x) <==> #[trigger] s.sort_by(leq_u64()).contains(x),
{
    let t = s.sort_by(leq_u64());
    assert(vstd::relations::total_ordering(leq_u64()));
    s.lemma_sort_by_ensures(leq_u64());
    t.to_multiset_ensures();
    s.to_multiset_ensures();
    assert forall|x: u64| s.contains(x) <==> #[trigger] t.contains(x) by {
        assert(s.contains(x) <==> s.to_multiset().count(x) > 0);
        assert(t.contains(x) <==> t.to_multiset().count(x) > 0);
    }
    assert forall|i: int, j: int| 0 <= i <= j < t.len() implies t[i] <= t[j] by {
        if i < j {
            assert(leq_u64()(t[i], t[j]));
        }
    }
}

/// `<[u64]>::sort_unstable`: afterwards the vector holds the same values in
/// ascending order.
#[verifier::external_body]
pub(crate) fn sort_u64s(v: &mut Vec<u64>)
    ensures
        final(v)@ == old(v)@.sort_by(leq_u64()),
{
    v.sort_unstable();
}

/// Sorts `xs` and replaces each value by its difference to its predecessor.
pub fn delta_encode(xs: Vec<u64>) -> (r: Vec<u64>)
    ensures
        r@ == deltas(xs@.sort_by(leq_u64())),
{
    let ghost input = xs@;
    let mut xs = xs;
    sort_u64s(&mut xs);
    proof {
        lemma_sorted_ascending(input);
    }
    let ghost sorted = xs@;
    let mut out: Vec<u64> = Vec::new();
    let mut prev: u64 = 0;
    let mut i: usize = 0;
    while i < xs.len()
        invariant
            i <= xs.len(),
            xs@ == sorted,
            ascending(sorted),
            out@ == deltas(sorted).take(i as int),
            i > 0 ==> prev == sorted[i - 1],
        decreases xs.len() - i,
    {
        let x: u64 = xs[i];
        let d: u64 = if i == 0 {
            x
        } else {
            x - prev
        };
        out.push(d);
        prev = x;
        i = i + 1;
        proof {
            assert(out@ =~= deltas(sorted).take(i as int));
        }
    }
    proof {
        assert(out@ =~= deltas(sorted));
    }
    out
}

/// Replaces each value by the sum of all values up to it, reduced to 64 bits.
pub fn delta_decode(xs: Vec<u64>) -> (r: Vec<u64>)
    ensures
        r@ == running_sums(xs@),
{
    let mut out: Vec<u64> = Vec::new();
    let mut acc: u64 = 0;
    let mut i: usize = 0;
    while i < xs.len()
        invariant
            i <= xs.len(),
            out@ == running_sums(xs@.take(i as int)),
            out@.len() == i,
            acc == (if i == 0 {
                0
            } else {
                out@.last()
            }),
        decreases xs.len() - i,
    {
        acc = acc.wrapping_add(xs[i]);
        out.push(acc);
        i = i + 1;
        proof {
            assert(xs@.take(i as int).drop_last() =~= xs@.take(i - 1));
        }
    }
    proof {
        assert(xs@.take(i as int) =~= xs@);
    }
    out
}

/// Sorts `xs` and writes its delta chain as varints.
pub fn encode_u64s_varint_delta(xs: Vec<u64>) -> (out: Vec<u8>)
    ensures
        out@ == varint_concat(deltas(xs@.sort_by(leq_u64()))),
{
    let ds = delta_encode(xs);
    let mut out: Vec<u8> = Vec::new();
    let mut i: usize = 0;
    while i < ds.len()
        invariant
            i <= ds.len(),
            out@ == varint_concat(ds@.take(i as int)),
        decreases ds.len() - i,
    {
        encode_varint(ds[i], &mut out);
        i = i + 1;
        proof {
            assert(ds@.take(i as int).drop_last() =~= ds@.take(i - 1));
        }
    }
    proof {
        assert(ds@.take(i as int) =~= ds@);
    }
    out
}

/// Reads varints until `bytes` is used up and sums them up into the values
/// they are the delta chain of.
pub fn decode_u64s_varint_delta(bytes: &[u8]) -> (r: Result<Vec<u64>, VarintError>)
    ensures
        match varints_from(bytes@, 0) {
            Ok(ds) => r matches Ok(v) && v@ == running_sums(ds),
            Err(e) => r == Err::<Vec<u64>, VarintError>(e),
        },
{
    let mut ds: Vec<u64> = Vec::new();
    let mut i: usize = 0;
    while i < bytes.len()
        invariant
            i <= bytes.len(),
            varints_from(bytes@, 0) == (match varints_from(bytes@, i as int) {
                Ok(rest) => Ok::<Seq<u64>, VarintError>(ds@ + rest),
                Err(e) => Err(e),
            }),
        decreases bytes.len() - i,
    {
        match decode_varint(bytes, i) {
            Err(e) => {
                return Err(e);
            },
            Ok((v, j)) => {
                proof {
                    let ghost before = ds@;
                    lemma_scan_advances(bytes@, i as int, 0, 0);
                    match varints_from(bytes@, j as int) {
                        Ok(rest) => {
                            assert(before.push(v) + rest =~= before + (seq![v] + rest));
                        },
                        Err(_) => {},
                    }
                }
                ds.push(v);
                i = j;
            },
        }
    }
    proof {
        assert(ds@ + Seq::<u64>::empty() =~= ds@);
    }
    Ok(delta_decode(ds))
}

} // verus!
