//! Little-endian fixed-width integers in byte buffers, and the errors of
//! loading an index from bytes.

use crate::util::varint::VarintError;
use vstd::bytes::*;
use vstd::prelude::*;
use vstd::slice::slice_subrange;

verus! {

/// Why bytes could not be loaded as an index.
#[derive(Clone, Copy, Debug, PartialEq, Eq)]
pub enum LoadError {
    /// The buffer does not start with the format's magic bytes.
    BadMagic,
    /// The buffer ends before the layout does.
    ShortRead,
    /// The run-length coded transform does not decode to the stated length.
    BwtLengthMismatch,
    /// A varint inside the buffer could not be read.
    Varint(VarintError),
    /// The layout was read, but what it holds is no valid index.
    Malformed,
}

/// The 64-bit value stored at offset `i`.
pub open spec fn u64_at(bytes: Seq<u8>, i: int) -> u64 {
    spec_u64_from_le_bytes(bytes.subrange(i, i + 8))
}

/// The 32-bit value stored at offset `i`.
pub open spec fn u32_at(bytes: Seq<u8>, i: int) -> u32 {
    spec_u32_from_le_bytes(bytes.subrange(i, i + 4))
}

/// The `n` 32-bit values stored from offset `i` on.
pub open spec fn u32s_at(bytes: Seq<u8>, i: int, n: nat) -> Seq<u32> {
    Seq::new(n, |k: int| u32_at(bytes, i + 4 * k))
}

/// The `n` 64-bit values stored from offset `i` on.
pub open spec fn u64s_at(bytes: Seq<u8>, i: int, n: nat) -> Seq<u64> {
    Seq::new(n, |k: int| u64_at(bytes, i + 8 * k))
}

/// The bytes of the values of `vs`, one after the other.
pub open spec fn u32s_bytes(vs: Seq<u32>) -> Seq<u8>
    decreases vs.len(),
{
    if vs.len() == 0 {
        Seq::empty()
    } else {
        u32s_bytes(vs.drop_last()) + spec_u32_to_le_bytes(vs.last())
    }
}

/// The bytes of the values of `vs`, one after the other.
pub open spec fn u64s_bytes(vs: Seq<u64>) -> Seq<u8>
    decreases vs.len(),
{
    if vs.len() == 0 {
        Seq::empty()
    } else {
        u64s_bytes(vs.drop_last()) + spec_u64_to_le_bytes(vs.last())
    }
}

/// A 64-bit value is read back where its bytes stand.
pub proof fn lemma_u64_at(pre: Seq<u8>, x: u64, suf: Seq<u8>)
    ensures
        u64_at(pre + spec_u64_to_le_bytes(x) + suf, pre.len() as int) == x,
        spec_u64_to_le_bytes(x).len() == 8,
{
    lemma_auto_spec_u64_to_from_le_bytes();
    let all = pre + spec_u64_to_le_bytes(x) + suf;
    assert(all.subrange(pre.len() as int, pre.len() as int + 8) =~= spec_u64_to_le_bytes(x));
}

/// A 32-bit value is read back where its bytes stand.
pub proof fn lemma_u32_at(pre: Seq<u8>, x: u32, suf: Seq<u8>)
    ensures
        u32_at(pre + spec_u32_to_le_bytes(x) + suf, pre.len() as int) == x,
        spec_u32_to_le_bytes(x).len() == 4,
{
    lemma_auto_spec_u32_to_from_le_bytes();
    let all = pre + spec_u32_to_le_bytes(x) + suf;
    assert(all.subrange(pre.len() as int, pre.len() as int + 4) =~= spec_u32_to_le_bytes(x));
}

/// A list of 64-bit values is read back where its bytes stand.
pub proof fn lemma_u64s_at(pre: Seq<u8>, vs: Seq<u64>, suf: Seq<u8>)
    ensures
        u64s_at(pre + u64s_bytes(vs) + suf, pre.len() as int, vs.len()) == vs,
        u64s_bytes(vs).len() == 8 * vs.len(),
    decreases vs.len(),
{
    let all = pre + u64s_bytes(vs) + suf;
    if vs.len() > 0 {
        let t = vs.drop_last();
        let x = vs.last();
        lemma_u64s_at(pre, t, spec_u64_to_le_bytes(x) + suf);
        lemma_u64_at(pre + u64s_bytes(t), x, suf);
        assert(pre + u64s_bytes(t) + (spec_u64_to_le_bytes(x) + suf) =~= all);
        assert(pre + u64s_bytes(t) + spec_u64_to_le_bytes(x) + suf =~= all);
        let got = u64s_at(all, pre.len() as int, vs.len());
        assert forall|k: int| 0 <= k < vs.len() implies got[k] == vs[k] by {
            if k < t.len() {
                assert(u64s_at(all, pre.len() as int, t.len())[k] == t[k]);
            }
        }
        assert(got =~= vs);
    } else {
        assert(u64s_at(all, pre.len() as int, vs.len()) =~= vs);
    }
}

/// A list of 32-bit values is read back where its bytes stand.
pub proof fn lemma_u32s_at(pre: Seq<u8>, vs: Seq<u32>, suf: Seq<u8>)
    ensures
        u32s_at(pre + u32s_bytes(vs) + suf, pre.len() as int, vs.len()) == vs,
        u32s_bytes(vs).len() == 4 * vs.len(),
    decreases vs.len(),
{
    let all = pre + u32s_bytes(vs) + suf;
    if vs.len() > 0 {
        let t = vs.drop_last();
        let x = vs.last();
        lemma_u32s_at(pre, t, spec_u32_to_le_bytes(x) + suf);
        lemma_u32_at(pre + u32s_bytes(t), x, suf);
        assert(pre + u32s_bytes(t) + (spec_u32_to_le_bytes(x) + suf) =~= all);
        assert(pre + u32s_bytes(t) + spec_u32_to_le_bytes(x) + suf =~= all);
        let got = u32s_at(all, pre.len() as int, vs.len());
        assert forall|k: int| 0 <= k < vs.len() implies got[k] == vs[k] by {
            if k < t.len() {
                assert(u32s_at(all, pre.len() as int, t.len())[k] == t[k]);
            }
        }
        assert(got =~= vs);
    } else {
        assert(u32s_at(all, pre.len() as int, vs.len()) =~= vs);
    }
}

/// Reads a 64-bit value at `at`; `None` where fewer than eight bytes are left.
pub fn read_u64(bytes: &[u8], at: usize) -> (r: Option<(u64, usize)>)
    ensures
        match r {
            Some((v, next)) => at + 8 <= bytes@.len() && v == u64_at(bytes@, at as int) && next
                == at + 8,
            None => at + 8 > bytes@.len(),
        },
{
    if at > bytes.len() || bytes.len() - at < 8 {
        return None;
    }
    let v = u64_from_le_bytes(slice_subrange(bytes, at, at + 8));
    Some((v, at + 8))
}

/// Reads a 32-bit value at `at`; `None` where fewer than four bytes are left.
pub fn read_u32(bytes: &[u8], at: usize) -> (r: Option<(u32, usize)>)
    ensures
        match r {
            Some((v, next)) => at + 4 <= bytes@.len() && v == u32_at(bytes@, at as int) && next
                == at + 4,
            None => at + 4 > bytes@.len(),
        },
{
    if at > bytes.len() || bytes.len() - at < 4 {
        return None;
    }
    let v = u32_from_le_bytes(slice_subrange(bytes, at, at + 4));
    Some((v, at + 4))
}

/// Appends the eight bytes of `v`.
pub fn put_u64(v: u64, out: &mut Vec<u8>)
    ensures
        final(out)@ == old(out)@ + spec_u64_to_le_bytes(v),
{
    let b = u64_to_le_bytes(v);
    out.extend_from_slice(b.as_slice());
}

/// Appends the four bytes of `v`.
pub fn put_u32(v: u32, out: &mut Vec<u8>)
    ensures
        final(out)@ == old(out)@ + spec_u32_to_le_bytes(v),
{
    let b = u32_to_le_bytes(v);
    out.extend_from_slice(b.as_slice());
}


/// Appends the bytes of every value of `vs`.
pub fn put_u32s(vs: &Vec<u32>, out: &mut Vec<u8>)
    ensures
        final(out)@ == old(out)@ + u32s_bytes(vs@),
{
    let ghost start = out@;
    let mut i: usize = 0;
    while i < vs.len()
        invariant
            i <= vs@.len(),
            out@ == start + u32s_bytes(vs@.take(i as int)),
        decreases vs@.len() - i,
    {
        put_u32(vs[i], out);
        i = i + 1;
        proof {
            assert(vs@.take(i as int).drop_last() =~= vs@.take(i - 1));
            assert(out@ =~= start + u32s_bytes(vs@.take(i as int)));
        }
    }
    proof {
        assert(vs@.take(i as int) =~= vs@);
    }
}

/// Reads `n` 32-bit values from `at` on; `None` where the buffer is too short.
pub fn read_u32s(bytes: &[u8], at: usize, n: u64) -> (r: Option<(Vec<u32>, usize)>)
    ensures
        match r {
            Some((vs, next)) => at + 4 * n <= bytes@.len() && vs@ == u32s_at(
                bytes@,
                at as int,
                n as nat,
            ) && next == at + 4 * n,
            None => at + 4 * n > bytes@.len(),
        },
{
    if at > bytes.len() || (((bytes.len() - at) / 4) as u64) < n {
        return None;
    }
    let mut vs: Vec<u32> = Vec::new();
    let mut pos: usize = at;
    let mut k: u64 = 0;
    while k < n
        invariant
            k <= n,
            at + 4 * n <= bytes@.len(),
            pos == at + 4 * k,
            vs@ == u32s_at(bytes@, at as int, k as nat),
        decreases n - k,
    {
        match read_u32(bytes, pos) {
            None => {
                return None;
            },
            Some((v, next)) => {
                vs.push(v);
                pos = next;
                k = k + 1;
                proof {
                    assert(vs@ =~= u32s_at(bytes@, at as int, k as nat));
                }
            },
        }
    }
    Some((vs, pos))
}


/// Appends the bytes of every value of `vs`.
pub fn put_u64s(vs: &Vec<u64>, out: &mut Vec<u8>)
    ensures
        final(out)@ == old(out)@ + u64s_bytes(vs@),
{
    let ghost start = out@;
    let mut i: usize = 0;
    while i < vs.len()
        invariant
            i <= vs@.len(),
            out@ == start + u64s_bytes(vs@.take(i as int)),
        decreases vs@.len() - i,
    {
        put_u64(vs[i], out);
        i = i + 1;
        proof {
            assert(vs@.take(i as int).drop_last() =~= vs@.take(i - 1));
            assert(out@ =~= start + u64s_bytes(vs@.take(i as int)));
        }
    }
    proof {
        assert(vs@.take(i as int) =~= vs@);
    }
}

/// Reads `n` 64-bit values from `at` on; `None` where the buffer is too short.
pub fn read_u64s(bytes: &[u8], at: usize, n: u64) -> (r: Option<(Vec<u64>, usize)>)
    ensures
        match r {
            Some((vs, next)) => at + 8 * n <= bytes@.len() && vs@ == u64s_at(
                bytes@,
                at as int,
                n as nat,
            ) && next == at + 8 * n,
            None => at + 8 * n > bytes@.len(),
        },
{
    if at > bytes.len() || (((bytes.len() - at) / 8) as u64) < n {
        return None;
    }
    let mut vs: Vec<u64> = Vec::new();
    let mut pos: usize = at;
    let mut k: u64 = 0;
    while k < n
        invariant
            k <= n,
            at + 8 * n <= bytes@.len(),
            pos == at + 8 * k,
            vs@ == u64s_at(bytes@, at as int, k as nat),
        decreases n - k,
    {
        match read_u64(bytes, pos) {
            None => {
                return None;
            },
            Some((v, next)) => {
                vs.push(v);
                pos = next;
                k = k + 1;
                proof {
                    assert(vs@ =~= u64s_at(bytes@, at as int, k as nat));
                }
            },
        }
    }
    Some((vs, pos))
}

} // verus!
