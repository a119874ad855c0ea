//! The positional inverted index: for every term the documents that hold it
//! and the positions at which it stands, stored as varints of differences.

use crate::text::tokenize::{token_views, tokenize, tokens_of};
use crate::util::rrr::strictly_ascending;
use crate::util::varint::{
    decode_varint, encode_varint, lemma_scan_advances, lemma_scan_encoded, lemma_varint_len,
    varint_bytes, varint_value,
};
use vstd::prelude::*;
use vstd::string::StringSliceAdditionalSpecFns;

verus! {

/// Why a postings blob could not be read.
#[derive(Clone, Copy, Debug, PartialEq, Eq, Structural)]
pub enum InvError {
    /// A varint could not be read, a difference that must be positive is
    /// zero, or a value does not fit in 32 bits.
    CorruptPostings,
    /// The terms of a dictionary are not strictly ascending.
    UnorderedTerms,
}

/// A posting list with the position lists taken by their views.
pub open spec fn postings_view(v: Seq<(u32, Vec<u32>)>) -> Seq<(u32, Seq<u32>)> {
    v.map_values(|e: (u32, Vec<u32>)| (e.0, e.1@))
}

/// Documents strictly ascending, and within each at least one position,
/// the positions strictly ascending too.
pub open spec fn entries_valid(list: Seq<(u32, Seq<u32>)>) -> bool {
    &&& forall|i: int, j: int| 0 <= i < j < list.len() ==> list[i].0 < list[j].0
    &&& forall|i: int|
        0 <= i < list.len() ==> strictly_ascending(#[trigger] list[i].1) && list[i].1.len() > 0
}

/// The varints of the differences of `pos` from index `k` on.
pub open spec fn positions_bytes(pos: Seq<u32>, k: int) -> Seq<u8>
    decreases pos.len() - k,
{
    if k < 0 || k >= pos.len() {
        Seq::empty()
    } else {
        let prev: int = if k == 0 {
            0
        } else {
            pos[k - 1] as int
        };
        varint_bytes((pos[k] - prev) as u64) + positions_bytes(pos, k + 1)
    }
}

/// The stored form of the entries of `list` from index `k` on: for each the
/// difference to the document before it, the number of positions, and the
/// positions as differences.
pub open spec fn entries_bytes(list: Seq<(u32, Seq<u32>)>, k: int) -> Seq<u8>
    decreases list.len() - k,
{
    if k < 0 || k >= list.len() {
        Seq::empty()
    } else {
        let last: int = if k == 0 {
            0
        } else {
            list[k - 1].0 as int
        };
        varint_bytes((list[k].0 - last) as u64) + varint_bytes(list[k].1.len() as u64)
            + positions_bytes(list[k].1, 0) + entries_bytes(list, k + 1)
    }
}

/// Reads `f` position differences at `i`, the position before them being
/// `prev`. Gives the positions and the offset after them; `None` on a varint
/// error, a zero difference behind the first position, or a position that
/// does not fit in 32 bits.
pub open spec fn decode_positions(b: Seq<u8>, i: int, f: nat, prev: int, first: bool) -> Option<
    (Seq<u32>, int),
>
    decreases f,
{
    if f == 0 {
        Some((Seq::empty(), i))
    } else {
        match varint_value(b, i) {
            None => None,
            Some((dv, j)) => if (!first && dv == 0) || prev + dv > u32::MAX {
                None
            } else {
                match decode_positions(b, j, (f - 1) as nat, prev + dv, false) {
                    None => None,
                    Some((rest, e)) => Some((seq![(prev + dv) as u32] + rest, e)),
                }
            },
        }
    }
}

pub proof fn lemma_decode_positions_advances(b: Seq<u8>, i: int, f: nat, prev: int, first: bool)
    requires
        0 <= i <= b.len(),
    ensures
        decode_positions(b, i, f, prev, first) matches Some((_, e)) ==> i <= e <= b.len(),
    decreases f,
{
    if f > 0 {
        lemma_scan_advances(b, i, 0, 0);
        match varint_value(b, i) {
            None => {},
            Some((dv, j)) => {
                lemma_decode_positions_advances(b, j, (f - 1) as nat, prev + dv, false);
            },
        }
    }
}

/// Reads entries from `i` to the end of `b`, the document before them being
/// `last`. `None` on a varint error, a zero difference behind the first
/// document, an entry without positions, or a value that does not fit in 32
/// bits.
pub open spec fn decode_entries(b: Seq<u8>, i: int, last: int, first: bool) -> Option<
    Seq<(u32, Seq<u32>)>,
>
    decreases b.len() - i,
    via decode_entries_decreases
{
    if i < 0 || i >= b.len() {
        Some(Seq::empty())
    } else {
        match varint_value(b, i) {
            None => None,
            Some((d, j1)) => if (!first && d == 0) || last + d > u32::MAX {
                None
            } else {
                match varint_value(b, j1) {
                    None => None,
                    Some((f, j2)) => if f == 0 {
                        None
                    } else {
                        match decode_positions(b, j2, f as nat, 0, true) {
                            None => None,
                            Some((pos, j3)) => match decode_entries(b, j3, last + d, false) {
                                None => None,
                                Some(rest) => Some(seq![((last + d) as u32, pos)] + rest),
                            },
                        }
                    },
                }
            },
        }
    }
}

#[via_fn]
proof fn decode_entries_decreases(b: Seq<u8>, i: int, last: int, first: bool) {
    if 0 <= i < b.len() {
        lemma_scan_advances(b, i, 0, 0);
        match varint_value(b, i) {
            None => {},
            Some((d, j1)) => {
                lemma_scan_advances(b, j1, 0, 0);
                match varint_value(b, j1) {
                    None => {},
                    Some((f, j2)) => {
                        lemma_decode_positions_advances(b, j2, f as nat, 0, true);
                    },
                }
            },
        }
    }
}

/// A blob that stores a valid posting list.
pub open spec fn blob_ok(blob: Seq<u8>) -> bool {
    stored_postings(blob) is Some && entries_valid(stored_postings(blob).unwrap())
}

/// The posting list that a blob stores, if it stores one.
pub open spec fn stored_postings(blob: Seq<u8>) -> Option<Seq<(u32, Seq<u32>)>> {
    decode_entries(blob, 0, 0, true)
}

/// Writes a posting list as a blob.
pub fn encode_postings(list: &Vec<(u32, Vec<u32>)>) -> (out: Vec<u8>)
    requires
        entries_valid(postings_view(list@)),
    ensures
        out@ == entries_bytes(postings_view(list@), 0),
{
    let ghost model = postings_view(list@);
    let mut out: Vec<u8> = Vec::new();
    let mut last: u32 = 0;
    let mut k: usize = 0;
    while k < list.len()
        invariant
            k <= list@.len(),
            model == postings_view(list@),
            entries_valid(model),
            k > 0 ==> last == model[k - 1].0,
            entries_bytes(model, 0) == out@ + entries_bytes(model, k as int),
        decreases list@.len() - k,
    {
        let docid: u32 = list[k].0;
        let pos = &list[k].1;
        let ghost before = out@;
        proof {
            assert(model[k as int] == (docid, pos@));
            if k > 0 {
                assert(model[k - 1].0 < model[k as int].0);
            }
            assert(strictly_ascending(model[k as int].1));
        }
        let d: u32 = if k == 0 {
            docid
        } else {
            docid - last
        };
        encode_varint(d as u64, &mut out);
        encode_varint(pos.len() as u64, &mut out);
        let ghost head = out@;
        let mut prev: u32 = 0;
        let mut q: usize = 0;
        while q < pos.len()
            invariant
                q <= pos@.len(),
                strictly_ascending(pos@),
                q > 0 ==> prev == pos@[q - 1],
                positions_bytes(pos@, 0) == out@.subrange(head.len() as int, out@.len() as int)
                    + positions_bytes(pos@, q as int),
                out@.subrange(0, head.len() as int) == head,
                head.len() <= out@.len(),
            decreases pos@.len() - q,
        {
            let p: u32 = pos[q];
            proof {
                if q > 0 {
                    assert(pos@[q - 1] < pos@[q as int]);
                }
            }
            let dp: u32 = if q == 0 {
                p
            } else {
                p - prev
            };
            let ghost tail = out@.subrange(head.len() as int, out@.len() as int);
            encode_varint(dp as u64, &mut out);
            proof {
                assert(out@.subrange(head.len() as int, out@.len() as int) =~= tail + varint_bytes(
                    dp as u64,
                ));
                assert(out@.subrange(0, head.len() as int) =~= head);
                assert(tail + varint_bytes(dp as u64) + positions_bytes(pos@, q + 1) =~= tail + (
                varint_bytes(dp as u64) + positions_bytes(pos@, q + 1)));
            }
            prev = p;
            q = q + 1;
        }
        proof {
            let tail = out@.subrange(head.len() as int, out@.len() as int);
            assert(tail + Seq::<u8>::empty() =~= tail);
            assert(out@ =~= head + tail);
            assert(out@ + entries_bytes(model, k + 1) =~= before + (varint_bytes(d as u64)
                + varint_bytes(pos@.len() as u64) + positions_bytes(pos@, 0) + entries_bytes(
                model,
                k + 1,
            )));
        }
        last = docid;
        k = k + 1;
    }
    proof {
        assert(out@ + Seq::<u8>::empty() =~= out@);
    }
    out
}

/// Reads a blob as a posting list. Fails where the blob is corrupt: a varint
/// cannot be read, a difference that must be positive is zero, an entry has
/// no position, a value does not fit in 32 bits, or the last entry is cut
/// short.
pub fn decode_postings(bytes: &[u8]) -> (r: Result<Vec<(u32, Vec<u32>)>, InvError>)
    ensures
        match stored_postings(bytes@) {
            Some(list) => r matches Ok(v) && postings_view(v@) == list && entries_valid(list),
            None => r == Err::<Vec<(u32, Vec<u32>)>, InvError>(InvError::CorruptPostings),
        },
{
    let mut res: Vec<(u32, Vec<u32>)> = Vec::new();
    let mut last: u64 = 0;
    let mut i: usize = 0;
    while i < bytes.len()
        invariant
            i <= bytes@.len(),
            last <= u32::MAX,
            entries_valid(postings_view(res@)),
            forall|k: int| 0 <= k < res@.len() ==> (#[trigger] res@[k]).0 <= last,
            stored_postings(bytes@) == (match decode_entries(
                bytes@,
                i as int,
                last as int,
                res@.len() == 0,
            ) {
                None => None::<Seq<(u32, Seq<u32>)>>,
                Some(rest) => Some(postings_view(res@) + rest),
            }),
        decreases bytes@.len() - i,
    {
        let first: bool = res.len() == 0;
        let (d, j1) = match decode_varint(bytes, i) {
            Ok(x) => x,
            Err(_) => {
                return Err(InvError::CorruptPostings);
            },
        };
        if (!first && d == 0) || d > u32::MAX as u64 - last {
            return Err(InvError::CorruptPostings);
        }
        let (f, j2) = match decode_varint(bytes, j1) {
            Ok(x) => x,
            Err(_) => {
                return Err(InvError::CorruptPostings);
            },
        };
        if f == 0 {
            return Err(InvError::CorruptPostings);
        }
        let mut pos: Vec<u32> = Vec::new();
        let mut prev: u64 = 0;
        let mut p: usize = j2;
        let mut k: u64 = 0;
        while k < f
            invariant
                k <= f,
                f > 0,
                j2 <= p <= bytes@.len(),
                prev <= u32::MAX,
                strictly_ascending(pos@),
                pos@.len() == 0 <==> k == 0,
                decode_positions(bytes@, j2 as int, f as nat, 0, true) is None ==> stored_postings(
                    bytes@,
                ) is None,
                forall|q: int| 0 <= q < pos@.len() ==> #[trigger] pos@[q] <= prev,
                decode_positions(bytes@, j2 as int, f as nat, 0, true) == (match decode_positions(
                    bytes@,
                    p as int,
                    (f - k) as nat,
                    prev as int,
                    k == 0,
                ) {
                    None => None::<(Seq<u32>, int)>,
                    Some((rest, e)) => Some((pos@ + rest, e)),
                }),
            decreases f - k,
        {
            let (dv, j3) = match decode_varint(bytes, p) {
                Ok(x) => x,
                Err(_) => {
                    return Err(InvError::CorruptPostings);
                },
            };
            if (k != 0 && dv == 0) || dv > u32::MAX as u64 - prev {
                return Err(InvError::CorruptPostings);
            }
            proof {
                let at = (prev + dv) as u32;
                match decode_positions(bytes@, j3 as int, (f - k - 1) as nat, prev + dv, false) {
                    None => {},
                    Some((rest, e)) => {
                        assert(pos@.push(at) + rest =~= pos@ + (seq![at] + rest));
                    },
                }
            }
            prev = prev + dv;
            pos.push(prev as u32);
            p = j3;
            k = k + 1;
        }
        proof {
            assert(pos@ + Seq::<u32>::empty() =~= pos@);
            assert(pos@.len() > 0);
            let ghost docid = (last + d) as u32;
            let before = postings_view(res@);
            match decode_entries(bytes@, p as int, last + d, false) {
                None => {},
                Some(rest) => {
                    assert(before.push((docid, pos@)) + rest =~= before + (seq![(docid, pos@)]
                        + rest));
                },
            }
            assert(postings_view(res@.push((docid, pos))) =~= before.push((docid, pos@)));
        }
        last = last + d;
        res.push((last as u32, pos));
        i = p;
    }
    proof {
        assert(postings_view(res@) + Seq::<(u32, Seq<u32>)>::empty() =~= postings_view(res@));
    }
    Ok(res)
}


/// Whether `a` comes strictly before `b` in lexicographic order, given that
/// they agree on their first `k` bytes.
pub open spec fn lex_lt_at(a: Seq<u8>, b: Seq<u8>, k: int) -> bool
    decreases a.len() - k,
{
    if k < 0 {
        false
    } else if k >= a.len() {
        k < b.len()
    } else if k >= b.len() {
        false
    } else if a[k] != b[k] {
        a[k] < b[k]
    } else {
        lex_lt_at(a, b, k + 1)
    }
}

/// The order of terms: lexicographic on their bytes.
pub open spec fn lex_lt(a: Seq<u8>, b: Seq<u8>) -> bool {
    lex_lt_at(a, b, 0)
}

pub proof fn lemma_lex_transitive(a: Seq<u8>, b: Seq<u8>, c: Seq<u8>, k: int)
    requires
        lex_lt_at(a, b, k),
        lex_lt_at(b, c, k),
    ensures
        lex_lt_at(a, c, k),
    decreases a.len() - k,
{
    if 0 <= k < a.len() && k < b.len() && k < c.len() && a[k] == b[k] && b[k] == c[k] {
        lemma_lex_transitive(a, b, c, k + 1);
    }
}

pub proof fn lemma_lex_irreflexive(a: Seq<u8>, k: int)
    ensures
        !lex_lt_at(a, a, k),
    decreases a.len() - k,
{
    if 0 <= k < a.len() {
        lemma_lex_irreflexive(a, k + 1);
    }
}

pub proof fn lemma_lex_connected(a: Seq<u8>, b: Seq<u8>, k: int)
    requires
        0 <= k <= a.len(),
        k <= b.len(),
        forall|j: int| 0 <= j < k ==> a[j] == b[j],
        !lex_lt_at(a, b, k),
        !lex_lt_at(b, a, k),
    ensures
        a =~= b,
    decreases a.len() - k,
{
    if k < a.len() && k < b.len() {
        lemma_lex_connected(a, b, k + 1);
    }
}

/// Terms strictly ascending in lexicographic order.
pub open spec fn sorted_terms(ts: Seq<Seq<u8>>) -> bool {
    forall|i: int, j: int| 0 <= i < j < ts.len() ==> lex_lt(#[trigger] ts[i], #[trigger] ts[j])
}

/// Compares two terms.
pub fn bytes_less(a: &[u8], b: &[u8]) -> (r: bool)
    ensures
        r == lex_lt(a@, b@),
{
    let mut k: usize = 0;
    loop
        invariant
            k <= a@.len(),
            k <= b@.len(),
            lex_lt(a@, b@) == lex_lt_at(a@, b@, k as int),
        decreases a@.len() - k,
    {
        if k >= a.len() {
            return k < b.len();
        }
        if k >= b.len() {
            return false;
        }
        if a[k] != b[k] {
            return a[k] < b[k];
        }
        k = k + 1;
    }
}

/// Whether two terms are the same bytes.
pub fn bytes_equal(a: &[u8], b: &[u8]) -> (r: bool)
    ensures
        r == (a@ == b@),
{
    if a.len() != b.len() {
        return false;
    }
    let mut k: usize = 0;
    while k < a.len()
        invariant
            k <= a@.len(),
            a@.len() == b@.len(),
            forall|j: int| 0 <= j < k ==> a@[j] == b@[j],
        decreases a@.len() - k,
    {
        if a[k] != b[k] {
            return false;
        }
        k = k + 1;
    }
    proof {
        assert(a@ =~= b@);
    }
    true
}

/// A copy of `a`.
pub fn copy_bytes(a: &[u8]) -> (r: Vec<u8>)
    ensures
        r@ == a@,
{
    let mut r: Vec<u8> = Vec::new();
    r.extend_from_slice(a);
    proof {
        assert(r@ =~= a@);
    }
    r
}

/// Reading a varint where an encoding stands gives the encoded value.
pub proof fn lemma_value_encoded(pre: Seq<u8>, x: u64, suf: Seq<u8>)
    ensures
        varint_value(pre + varint_bytes(x) + suf, pre.len() as int) == Some(
            (x, (pre.len() + varint_bytes(x).len()) as int),
        ),
        varint_bytes(x).len() >= 1,
{
    lemma_varint_len(x);
    lemma_scan_encoded(pre, x, suf, 0, 0);
    assert(crate::util::varint::pow128(0) == 1);
    assert(x * 1 == x);
}

/// Reading back the stored form of ascending positions gives the positions.
pub proof fn lemma_positions_roundtrip(pre: Seq<u8>, pos: Seq<u32>, k: int, suf: Seq<u8>)
    requires
        strictly_ascending(pos),
        0 <= k <= pos.len(),
    ensures
        decode_positions(
            pre + positions_bytes(pos, k) + suf,
            pre.len() as int,
            (pos.len() - k) as nat,
            if k == 0 {
                0
            } else {
                pos[k - 1] as int
            },
            k == 0,
        ) == Some((pos.skip(k), (pre.len() + positions_bytes(pos, k).len()) as int)),
    decreases pos.len() - k,
{
    let all = pre + positions_bytes(pos, k) + suf;
    if k == pos.len() {
        assert(pos.skip(k) =~= Seq::<u32>::empty());
    } else {
        let prev: int = if k == 0 {
            0
        } else {
            pos[k - 1] as int
        };
        if k > 0 {
            assert(pos[k - 1] < pos[k]);
        }
        let d = (pos[k] - prev) as u64;
        let rest = positions_bytes(pos, k + 1);
        let pre2 = pre + varint_bytes(d);
        assert(varint_value(all, pre.len() as int) == Some((d, pre2.len() as int))) by {
            lemma_value_encoded(pre, d, rest + suf);
            assert(pre + varint_bytes(d) + (rest + suf) =~= all);
        }
        assert(decode_positions(all, pre2.len() as int, (pos.len() - k - 1) as nat, pos[k] as int, false)
            == Some((pos.skip(k + 1), (pre.len() + positions_bytes(pos, k).len()) as int))) by {
            lemma_positions_roundtrip(pre2, pos, k + 1, suf);
            assert(pre2 + rest + suf =~= all);
        }
        assert(seq![pos[k]] + pos.skip(k + 1) =~= pos.skip(k));
    }
}

/// A valid posting list whose position lists have lengths that fit in 64
/// bits.
#[verifier::opaque]
pub open spec fn storable(list: Seq<(u32, Seq<u32>)>) -> bool {
    &&& entries_valid(list)
    &&& forall|i: int| 0 <= i < list.len() ==> (#[trigger] list[i]).1.len() <= u64::MAX
}

proof fn lemma_storable_at(list: Seq<(u32, Seq<u32>)>, k: int)
    requires
        storable(list),
        0 <= k < list.len(),
    ensures
        strictly_ascending(list[k].1),
        0 < list[k].1.len() <= u64::MAX,
        k > 0 ==> list[k - 1].0 < list[k].0,
{
    reveal(storable);
}

proof fn lemma_decode_entry(
    all: Seq<u8>,
    i1: int,
    last: int,
    first: bool,
    d: u64,
    i2: int,
    f: u64,
    i3: int,
    pos: Seq<u32>,
    i4: int,
    rest: Seq<(u32, Seq<u32>)>,
)
    requires
        0 <= i1 < all.len(),
        varint_value(all, i1) == Some((d, i2)),
        first || d != 0,
        last + d <= u32::MAX,
        varint_value(all, i2) == Some((f, i3)),
        f != 0,
        decode_positions(all, i3, f as nat, 0, true) == Some((pos, i4)),
        decode_entries(all, i4, last + d, false) == Some(rest),
    ensures
        decode_entries(all, i1, last, first) == Some(seq![((last + d) as u32, pos)] + rest),
{
}

/// Reading back the stored form of a valid posting list gives the list.
#[verifier::rlimit(80)]
#[verifier::spinoff_prover]
pub proof fn lemma_entries_roundtrip(pre: Seq<u8>, list: Seq<(u32, Seq<u32>)>, k: int)
    requires
        storable(list),
        0 <= k <= list.len(),
    ensures
        decode_entries(
            pre + entries_bytes(list, k),
            pre.len() as int,
            if k == 0 {
                0
            } else {
                list[k - 1].0 as int
            },
            k == 0,
        ) == Some(list.skip(k)),
    decreases list.len() - k,
{
    let all = pre + entries_bytes(list, k);
    if k == list.len() {
        assert(list.skip(k) =~= Seq::<(u32, Seq<u32>)>::empty());
        assert(all =~= pre);
    } else {
        let last: int = if k == 0 {
            0
        } else {
            list[k - 1].0 as int
        };
        lemma_storable_at(list, k);
        let pos = list[k].1;
        let d = (list[k].0 - last) as u64;
        let f = pos.len() as u64;
        let pb = positions_bytes(pos, 0);
        let eb = entries_bytes(list, k + 1);
        let pre2 = pre + varint_bytes(d);
        let pre3 = pre2 + varint_bytes(f);
        let pre4 = pre3 + pb;
        let i1 = pre.len() as int;
        let i2 = pre2.len() as int;
        let i3 = pre3.len() as int;
        let i4 = pre4.len() as int;
        assert(all == pre + (varint_bytes(d) + varint_bytes(f) + pb + eb));
        assert(varint_value(all, i1) == Some((d, i2)) && i1 < all.len()) by {
            lemma_value_encoded(pre, d, varint_bytes(f) + pb + eb);
            assert(pre + varint_bytes(d) + (varint_bytes(f) + pb + eb) =~= all);
        }
        assert(varint_value(all, i2) == Some((f, i3))) by {
            lemma_value_encoded(pre2, f, pb + eb);
            assert(pre2 + varint_bytes(f) + (pb + eb) =~= all);
        }
        assert(decode_positions(all, i3, f as nat, 0, true) == Some((pos, i4))) by {
            lemma_positions_roundtrip(pre3, pos, 0, eb);
            assert(pre3 + pb + eb =~= all);
            assert(pos.skip(0) =~= pos);
        }
        assert(decode_entries(all, i4, last + d, false) == Some(list.skip(k + 1))) by {
            lemma_entries_roundtrip(pre4, list, k + 1);
            assert(pre4 + eb =~= all);
        }
        lemma_decode_entry(all, i1, last, k == 0, d, i2, f, i3, pos, i4, list.skip(k + 1));
        assert(seq![((last + d) as u32, pos)] + list.skip(k + 1) =~= list.skip(k));
    }
}

/// What was stored is what is read: the blob of a valid posting list
/// decodes to that list.
pub proof fn lemma_postings_roundtrip(list: Seq<(u32, Seq<u32>)>)
    requires
        entries_valid(list),
        forall|i: int| 0 <= i < list.len() ==> (#[trigger] list[i]).1.len() <= u64::MAX,
    ensures
        stored_postings(entries_bytes(list, 0)) == Some(list),
{
    reveal(storable);
    lemma_entries_roundtrip(Seq::empty(), list, 0);
    assert(Seq::<u8>::empty() + entries_bytes(list, 0) =~= entries_bytes(list, 0));
    assert(list.skip(0) =~= list);
}


/// The index at which `t` stands in `ts`, if it stands there.
pub open spec fn term_index(ts: Seq<Seq<u8>>, t: Seq<u8>) -> Option<int> {
    if exists|i: int| 0 <= i < ts.len() && ts[i] == t {
        Some(choose|i: int| 0 <= i < ts.len() && ts[i] == t)
    } else {
        None
    }
}

/// In sorted terms a term stands at one index only.
pub proof fn lemma_term_index_unique(ts: Seq<Seq<u8>>, i: int)
    requires
        sorted_terms(ts),
        0 <= i < ts.len(),
    ensures
        term_index(ts, ts[i]) == Some(i),
{
    let j = choose|j: int| 0 <= j < ts.len() && ts[j] == ts[i];
    lemma_lex_irreflexive(ts[i], 0);
    if j < i {
        assert(lex_lt(ts[j], ts[i]));
    } else if i < j {
        assert(lex_lt(ts[i], ts[j]));
    }
}

/// The positions below `m` at which `t` stands in `toks`, ascending.
pub open spec fn positions_in(toks: Seq<Seq<u8>>, t: Seq<u8>, m: int) -> Seq<u32>
    decreases m,
{
    if m <= 0 {
        Seq::empty()
    } else {
        let r = positions_in(toks, t, m - 1);
        if toks[m - 1] == t {
            r.push((m - 1) as u32)
        } else {
            r
        }
    }
}

/// What one document adds to the posting list of `t`: nothing where `t` does
/// not occur in it, else the document with the positions of `t`.
pub open spec fn doc_entry(toks: Seq<Seq<u8>>, docid: u32, t: Seq<u8>) -> Seq<(u32, Seq<u32>)> {
    let pos = positions_in(toks, t, toks.len() as int);
    if pos.len() == 0 {
        Seq::empty()
    } else {
        seq![(docid, pos)]
    }
}

/// A term with its posting list, while the index is being built.
pub struct TermDocs {
    pub term: Vec<u8>,
    pub docs: Vec<(u32, Vec<u32>)>,
}

/// A term with its stored posting list.
pub struct DictEntry {
    pub term: Vec<u8>,
    pub blob: Vec<u8>,
}

/// The terms of a builder's buckets, in their order.
pub open spec fn bucket_terms(terms: Seq<TermDocs>) -> Seq<Seq<u8>> {
    terms.map_values(|e: TermDocs| e.term@)
}

/// The terms of a dictionary, in their order.
pub open spec fn dict_terms(dict: Seq<DictEntry>) -> Seq<Seq<u8>> {
    dict.map_values(|e: DictEntry| e.term@)
}

/// A bucket whose posting list is valid and ends below `bound`.
pub open spec fn bucket_ok(e: TermDocs, bound: int) -> bool {
    &&& entries_valid(postings_view(e.docs@))
    &&& forall|k: int| 0 <= k < e.docs@.len() ==> (#[trigger] e.docs@[k]).0 < bound
}

/// Collects documents term by term, until `finalize` turns them into an
/// index. Documents come in ascending order of their ids.
pub struct InvBuilder {
    /// The buckets, sorted by term.
    pub terms: Vec<TermDocs>,
    /// The least document id that may still be added.
    pub next_min: u64,
}

/// The positions at which token number `which` of `toks` stands in `toks`.
fn collect_positions(toks: &Vec<Vec<u8>>, which: usize) -> (r: Vec<u32>)
    requires
        which < toks@.len() <= u32::MAX,
    ensures
        r@ == positions_in(token_views(toks@), toks@[which as int]@, toks@.len() as int),
        strictly_ascending(r@),
        r@.len() > 0,
{
    let ghost views = token_views(toks@);
    let ghost t = toks@[which as int]@;
    let mut r: Vec<u32> = Vec::new();
    let mut q: usize = 0;
    while q < toks.len()
        invariant
            q <= toks@.len() <= u32::MAX,
            which < toks@.len(),
            views == token_views(toks@),
            t == toks@[which as int]@,
            r@ == positions_in(views, t, q as int),
            strictly_ascending(r@),
            forall|k: int| 0 <= k < r@.len() ==> #[trigger] r@[k] < q,
            q > which ==> r@.len() > 0,
        decreases toks@.len() - q,
    {
        assert(views[q as int] == toks@[q as int]@);
        if bytes_equal(toks[q].as_slice(), toks[which].as_slice()) {
            r.push(q as u32);
        }
        q = q + 1;
    }
    r
}

impl InvBuilder {
    /// Buckets sorted by term, each with a valid posting list of documents
    /// below `next_min`.
    pub open spec fn wf(&self) -> bool {
        &&& sorted_terms(bucket_terms(self.terms@))
        &&& self.next_min <= u32::MAX + 1
        &&& forall|i: int|
            0 <= i < self.terms@.len() ==> bucket_ok(#[trigger] self.terms@[i], self.next_min as int)
    }

    /// The posting list collected for `t` so far.
    pub open spec fn bucket(&self, t: Seq<u8>) -> Seq<(u32, Seq<u32>)> {
        match term_index(bucket_terms(self.terms@), t) {
            Some(i) => postings_view(self.terms@[i].docs@),
            None => Seq::empty(),
        }
    }

    /// A builder without documents.
    pub fn new() -> (b: Self)
        ensures
            b.wf(),
            b.terms@.len() == 0,
            b.next_min == 0,
    {
        InvBuilder { terms: Vec::new(), next_min: 0 }
    }

    /// The number of buckets whose term comes before `tok`, by binary
    /// search.
    fn rank_of(&self, tok: &[u8]) -> (i: usize)
        requires
            sorted_terms(bucket_terms(self.terms@)),
        ensures
            i <= self.terms@.len(),
            forall|j: int| 0 <= j < i ==> lex_lt(self.terms@[j].term@, tok@),
            forall|j: int| i <= j < self.terms@.len() ==> !lex_lt(self.terms@[j].term@, tok@),
    {
        let ghost ts = bucket_terms(self.terms@);
        let mut lo: usize = 0;
        let mut hi: usize = self.terms.len();
        while lo < hi
            invariant
                lo <= hi <= self.terms@.len(),
                ts == bucket_terms(self.terms@),
                sorted_terms(ts),
                forall|j: int| 0 <= j < lo ==> lex_lt(self.terms@[j].term@, tok@),
                forall|j: int| hi <= j < self.terms@.len() ==> !lex_lt(self.terms@[j].term@, tok@),
            decreases hi - lo,
        {
            let mid: usize = lo + (hi - lo) / 2;
            assert(ts[mid as int] == self.terms@[mid as int].term@);
            if bytes_less(self.terms[mid].term.as_slice(), tok) {
                proof {
                    assert forall|j: int| 0 <= j < mid + 1 implies lex_lt(
                        self.terms@[j].term@,
                        tok@,
                    ) by {
                        assert(ts[j] == self.terms@[j].term@);
                        if j < mid {
                            assert(lex_lt(ts[j], ts[mid as int]));
                            lemma_lex_transitive(ts[j], ts[mid as int], tok@, 0);
                        }
                    }
                }
                lo = mid + 1;
            } else {
                proof {
                    assert forall|j: int| mid <= j < self.terms@.len() implies !lex_lt(
                        self.terms@[j].term@,
                        tok@,
                    ) by {
                        assert(ts[j] == self.terms@[j].term@);
                        if mid < j && lex_lt(ts[j], tok@) {
                            assert(lex_lt(ts[mid as int], ts[j]));
                            lemma_lex_transitive(ts[mid as int], ts[j], tok@, 0);
                        }
                    }
                }
                hi = mid;
            }
        }
        lo
    }

    /// The index of the bucket of `tok`, if there is one.
    fn find(&self, tok: &[u8]) -> (r: Option<usize>)
        requires
            sorted_terms(bucket_terms(self.terms@)),
        ensures
            match r {
                Some(i) => i < self.terms@.len() && self.terms@[i as int].term@ == tok@,
                None => forall|i: int| 0 <= i < self.terms@.len() ==> self.terms@[i].term@ != tok@,
            },
    {
        let at = self.rank_of(tok);
        if at < self.terms.len() && bytes_equal(self.terms[at].term.as_slice(), tok) {
            return Some(at);
        }
        proof {
            let ts = bucket_terms(self.terms@);
            lemma_lex_irreflexive(tok@, 0);
            assert forall|i: int| 0 <= i < self.terms@.len() implies self.terms@[i].term@
                != tok@ by {
                assert(ts[i] == self.terms@[i].term@);
                if i > at {
                    assert(ts[at as int] == self.terms@[at as int].term@);
                    assert(lex_lt(ts[at as int], ts[i]));
                }
            }
        }
        None
    }

    /// The bucket at index `i` is the posting list of its term.
    pub proof fn lemma_bucket_at(&self, i: int)
        requires
            sorted_terms(bucket_terms(self.terms@)),
            0 <= i < self.terms@.len(),
        ensures
            self.bucket(self.terms@[i].term@) == postings_view(self.terms@[i].docs@),
    {
        let ts = bucket_terms(self.terms@);
        assert(ts[i] == self.terms@[i].term@);
        lemma_term_index_unique(ts, i);
    }

    /// A term without a bucket has an empty posting list.
    pub proof fn lemma_bucket_missing(&self, t: Seq<u8>)
        requires
            forall|i: int| 0 <= i < self.terms@.len() ==> self.terms@[i].term@ != t,
        ensures
            self.bucket(t) == Seq::<(u32, Seq<u32>)>::empty(),
    {
        let ts = bucket_terms(self.terms@);
        assert forall|i: int| 0 <= i < ts.len() implies ts[i] != t by {
            assert(ts[i] == self.terms@[i].term@);
        }
    }

    /// Every document collected so far is below `next_min`.
    pub proof fn lemma_bucket_below(&self, t: Seq<u8>)
        requires
            self.wf(),
        ensures
            forall|k: int| 0 <= k < self.bucket(t).len() ==> (#[trigger] self.bucket(t)[k]).0
                < self.next_min,
    {
        match term_index(bucket_terms(self.terms@), t) {
            Some(i) => {
                assert(bucket_ok(self.terms@[i], self.next_min as int));
                assert forall|k: int| 0 <= k < self.bucket(t).len() implies (
                #[trigger] self.bucket(t)[k]).0 < self.next_min by {
                    assert(self.bucket(t)[k].0 == self.terms@[i].docs@[k].0);
                }
            },
            None => {},
        }
    }

    /// Adds the document `docid` with the tokens `toks`, the position of a
    /// token being its index. Every term of the document gets one more
    /// entry: the document with the positions of the term in it.
    pub fn add_tokens(&mut self, docid: u32, toks: &Vec<Vec<u8>>)
        requires
            old(self).wf(),
            docid >= old(self).next_min,
            toks@.len() <= u32::MAX,
        ensures
            final(self).wf(),
            final(self).next_min == docid + 1,
            forall|t: Seq<u8>| #[trigger]
                final(self).bucket(t) == old(self).bucket(t) + doc_entry(
                    token_views(toks@),
                    docid,
                    t,
                ),
    {
        let ghost start = *self;
        let ghost views = token_views(toks@);
        self.next_min = docid as u64 + 1;
        proof {
            assert forall|t: Seq<u8>| #[trigger]
                self.bucket(t) == start.bucket(t) + Seq::<(u32, Seq<u32>)>::empty() by {
                assert(self.bucket(t) =~= start.bucket(t) + Seq::<(u32, Seq<u32>)>::empty());
            }
        }
        let mut p: usize = 0;
        while p < toks.len()
            invariant
                p <= toks@.len() <= u32::MAX,
                self.next_min == docid + 1,
                self.wf(),
                start.wf(),
                docid >= start.next_min,
                views == token_views(toks@),
                forall|t: Seq<u8>| #[trigger]
                    self.bucket(t) == start.bucket(t) + (if positions_in(views, t, p as int).len()
                        > 0 {
                        doc_entry(views, docid, t)
                    } else {
                        Seq::empty()
                    }),
            decreases toks@.len() - p,
        {
            let tok = &toks[p];
            let ghost prev = *self;
            let ghost tk = tok@;
            let ghost added: bool = false;
            let ghost fresh: Seq<u32> = Seq::empty();
            proof {
                assert(views[p as int] == tk);
                start.lemma_bucket_below(tk);
            }
            match self.find(tok.as_slice()) {
                Some(i) => {
                    let ghost before = self.terms@;
                    assert(bucket_ok(before[i as int], docid + 1));
                    let count: usize = self.terms[i].docs.len();
                    let seen: bool = count > 0 && self.terms[i].docs[count - 1].0 == docid;
                    proof {
                        prev.lemma_bucket_at(i as int);
                        let v0 = postings_view(before[i as int].docs@);
                        if count > 0 {
                            assert(v0[count - 1].0 == before[i as int].docs@[count - 1].0);
                        }
                    }
                    if !seen {
                        let positions = collect_positions(toks, p);
                        let mut e = self.terms.remove(i);
                        let ghost docs0 = e.docs@;
                        e.docs.push((docid, positions));
                        proof {
                            let v0 = postings_view(docs0);
                            let v1 = postings_view(e.docs@);
                            assert(v1 =~= v0.push((docid, positions@)));
                            assert forall|a: int, b: int| 0 <= a < b < v1.len() implies v1[a].0
                                < v1[b].0 by {
                                assert(v0[a].0 == docs0[a].0);
                                if b < v0.len() {
                                    assert(v0[a].0 < v0[b].0);
                                } else if count > 0 {
                                    assert(docs0[a].0 < docid + 1);
                                    if a < count - 1 {
                                        assert(v0[a].0 < v0[count - 1].0);
                                        assert(v0[count - 1].0 == docs0[count - 1].0);
                                    }
                                }
                            }
                            assert forall|a: int| 0 <= a < v1.len() implies strictly_ascending(
                                #[trigger] v1[a].1,
                            ) && v1[a].1.len() > 0 by {
                                if a < v0.len() {
                                    assert(v1[a] == v0[a]);
                                }
                            }
                        }
                        self.terms.insert(i, e);
                        proof {
                            added = true;
                            fresh = positions@;
                            let ts = bucket_terms(before);
                            assert(bucket_terms(self.terms@) =~= ts);
                            assert forall|j: int| 0 <= j < self.terms@.len() implies bucket_ok(
                                #[trigger] self.terms@[j],
                                self.next_min as int,
                            ) by {
                                if j != i {
                                    assert(self.terms@[j] == before[j]);
                                }
                            }
                            assert(ts[i as int] == tk);
                            lemma_term_index_unique(ts, i as int);
                            self.lemma_bucket_at(i as int);
                            assert forall|t: Seq<u8>| t != tk implies #[trigger] self.bucket(t)
                                == prev.bucket(t) by {
                                match term_index(ts, t) {
                                    Some(j) => {
                                        assert(self.terms@[j] == before[j]);
                                    },
                                    None => {},
                                }
                            }
                        }
                    }
                },
                None => {
                    let ghost before = self.terms@;
                    let at = self.rank_of(tok.as_slice());
                    let positions = collect_positions(toks, p);
                    let mut docs: Vec<(u32, Vec<u32>)> = Vec::new();
                    docs.push((docid, positions));
                    let e = TermDocs { term: copy_bytes(tok.as_slice()), docs };
                    proof {
                        let v = postings_view(e.docs@);
                        assert(v =~= seq![(docid, positions@)]);
                        prev.lemma_bucket_missing(tk);
                    }
                    self.terms.insert(at, e);
                    proof {
                        added = true;
                        fresh = positions@;
                        let ts0 = bucket_terms(before);
                        let ts1 = bucket_terms(self.terms@);
                        assert(ts1 =~= ts0.insert(at as int, tk));
                        assert forall|a: int, b: int| 0 <= a < b < ts1.len() implies lex_lt(
                            #[trigger] ts1[a],
                            #[trigger] ts1[b],
                        ) by {
                            let a0 = if a < at { a } else { a - 1 };
                            let b0 = if b < at { b } else { b - 1 };
                            if a != at && b != at {
                                assert(ts1[a] == ts0[a0] && ts1[b] == ts0[b0]);
                            } else if b == at {
                                assert(ts1[a] == ts0[a]);
                                assert(ts0[a] == before[a].term@);
                            } else {
                                assert(ts1[b] == ts0[b - 1]);
                                assert(ts0[at as int] == before[at as int].term@);
                                if !lex_lt(tk, ts0[at as int]) {
                                    lemma_lex_connected(tk, ts0[at as int], 0);
                                }
                                if at < b - 1 {
                                    assert(lex_lt(ts0[at as int], ts0[b - 1]));
                                    lemma_lex_transitive(tk, ts0[at as int], ts0[b - 1], 0);
                                }
                            }
                        }
                        assert forall|j: int| 0 <= j < self.terms@.len() implies bucket_ok(
                            #[trigger] self.terms@[j],
                            self.next_min as int,
                        ) by {
                            if j < at {
                                assert(self.terms@[j] == before[j]);
                            } else if j > at {
                                assert(self.terms@[j] == before[j - 1]);
                            }
                        }
                        self.lemma_bucket_at(at as int);
                        assert(postings_view(self.terms@[at as int].docs@) =~= prev.bucket(tk).push(
                            (docid, positions@),
                        ));
                        assert forall|t: Seq<u8>| t != tk implies #[trigger] self.bucket(t)
                            == prev.bucket(t) by {
                            match term_index(ts0, t) {
                                Some(j0) => {
                                    let j1 = if j0 < at { j0 } else { j0 + 1 };
                                    assert(self.terms@[j1] == before[j0]);
                                    assert(ts1[j1] == t);
                                    lemma_term_index_unique(ts1, j1);
                                },
                                None => {
                                    assert forall|j1: int| 0 <= j1 < ts1.len() implies ts1[j1]
                                        != t by {
                                        if j1 < at {
                                            assert(ts1[j1] == ts0[j1]);
                                        } else if j1 > at {
                                            assert(ts1[j1] == ts0[j1 - 1]);
                                        }
                                    }
                                },
                            }
                        }
                    }
                },
            }
            proof {
                let had = positions_in(views, tk, p as int).len() > 0;
                assert(added ==> self.bucket(tk) == prev.bucket(tk).push((docid, fresh)));
                assert(added ==> fresh == positions_in(views, tk, toks@.len() as int) && fresh.len()
                    > 0);
                assert(!added ==> self.bucket(tk) == prev.bucket(tk));
                assert(forall|t: Seq<u8>| t != tk ==> #[trigger] self.bucket(t) == prev.bucket(t));
                assert(prev.bucket(tk) == start.bucket(tk) + (if had {
                    doc_entry(views, docid, tk)
                } else {
                    Seq::empty()
                }));
                if had {
                    let whole = prev.bucket(tk);
                    assert(whole.last().0 == docid);
                } else {
                    assert(prev.bucket(tk) =~= start.bucket(tk));
                }
                assert(added == !had);
                assert forall|t: Seq<u8>| #[trigger]
                    self.bucket(t) == start.bucket(t) + (if positions_in(views, t, p + 1).len()
                        > 0 {
                        doc_entry(views, docid, t)
                    } else {
                        Seq::empty()
                    }) by {
                    if t == tk {
                        if added {
                            assert(start.bucket(tk).push((docid, fresh)) =~= start.bucket(tk)
                                + doc_entry(views, docid, tk));
                        }
                    }
                }
            }
            p = p + 1;
        }
        proof {
            assert forall|t: Seq<u8>| #[trigger]
                self.bucket(t) == start.bucket(t) + doc_entry(views, docid, t) by {
                let m = toks@.len() as int;
                if positions_in(views, t, m).len() == 0 {
                    assert(doc_entry(views, docid, t) =~= Seq::<(u32, Seq<u32>)>::empty());
                }
            }
        }
    }

    /// Adds the document `docid` with the tokens of `text`.
    pub fn add_doc(&mut self, docid: u32, text: &str)
        requires
            old(self).wf(),
            docid >= old(self).next_min,
            text.spec_bytes().len() <= u32::MAX,
        ensures
            final(self).wf(),
            final(self).next_min == docid + 1,
            forall|t: Seq<u8>| #[trigger]
                final(self).bucket(t) == old(self).bucket(t) + doc_entry(
                    tokens_of(text.spec_bytes()),
                    docid,
                    t,
                ),
    {
        let toks = tokenize(text);
        self.add_tokens(docid, &toks);
    }
}

/// The positional inverted index: the dictionary of terms, each with its
/// stored posting list.
pub struct InvertedIndex {
    /// The dictionary, sorted by term.
    pub dict: Vec<DictEntry>,
}

impl InvertedIndex {
    /// Terms sorted, and every blob a stored posting list.
    pub open spec fn wf(&self) -> bool {
        &&& sorted_terms(dict_terms(self.dict@))
        &&& forall|i: int|
            0 <= i < self.dict@.len() ==> blob_ok((#[trigger] self.dict@[i]).blob@)
    }

    /// The posting list of `t`: what its blob stores, or nothing where `t`
    /// is not in the dictionary.
    pub open spec fn postings_spec(&self, t: Seq<u8>) -> Seq<(u32, Seq<u32>)> {
        match term_index(dict_terms(self.dict@), t) {
            Some(i) => stored_postings(self.dict@[i].blob@).unwrap(),
            None => Seq::empty(),
        }
    }

    /// Takes a dictionary as it was stored. Fails with `CorruptPostings`
    /// where some blob is no stored posting list, else with `UnorderedTerms`
    /// where the terms are not strictly ascending.
    pub fn from_dict(dict: Vec<DictEntry>) -> (r: Result<Self, InvError>)
        ensures
            match r {
                Ok(inv) => inv.dict@ == dict@ && inv.wf(),
                Err(InvError::CorruptPostings) => exists|i: int|
                    0 <= i < dict@.len() && stored_postings(#[trigger] dict@[i].blob@) is None,
                Err(InvError::UnorderedTerms) => {
                    &&& forall|i: int| 0 <= i < dict@.len() ==> blob_ok((#[trigger] dict@[i]).blob@)
                    &&& !sorted_terms(dict_terms(dict@))
                },
            },
    {
        let mut i: usize = 0;
        while i < dict.len()
            invariant
                i <= dict@.len(),
                forall|j: int| 0 <= j < i ==> blob_ok((#[trigger] dict@[j]).blob@),
            decreases dict@.len() - i,
        {
            match decode_postings(dict[i].blob.as_slice()) {
                Ok(_) => {},
                Err(_) => {
                    return Err(InvError::CorruptPostings);
                },
            }
            i = i + 1;
        }
        let ghost ts = dict_terms(dict@);
        let mut k: usize = 1;
        while k < dict.len()
            invariant
                1 <= k,
                ts == dict_terms(dict@),
                forall|j: int| 0 <= j < dict@.len() ==> blob_ok((#[trigger] dict@[j]).blob@),
                forall|a: int, b: int|
                    0 <= a < b < k && b < ts.len() ==> lex_lt(#[trigger] ts[a], #[trigger] ts[b]),
            decreases dict@.len() - k,
        {
            assert(ts[k - 1] == dict@[k - 1].term@ && ts[k as int] == dict@[k as int].term@);
            if !bytes_less(dict[k - 1].term.as_slice(), dict[k].term.as_slice()) {
                proof {
                    if sorted_terms(ts) {
                        assert(lex_lt(ts[k - 1], ts[k as int]));
                    }
                }
                return Err(InvError::UnorderedTerms);
            }
            proof {
                assert forall|a: int, b: int| 0 <= a < b < k + 1 && b < ts.len() implies lex_lt(
                    #[trigger] ts[a],
                    #[trigger] ts[b],
                ) by {
                    if b == k && a < k - 1 {
                        assert(lex_lt(ts[a], ts[k - 1]));
                        lemma_lex_transitive(ts[a], ts[k - 1], ts[k as int], 0);
                    }
                }
            }
            k = k + 1;
        }
        Ok(InvertedIndex { dict })
    }

    /// The number of terms of the dictionary that come before `term`, by
    /// binary search.
    pub fn rank_of(&self, term: &[u8]) -> (i: usize)
        requires
            self.wf(),
        ensures
            i <= self.dict@.len(),
            forall|j: int| 0 <= j < i ==> lex_lt(self.dict@[j].term@, term@),
            forall|j: int| i <= j < self.dict@.len() ==> !lex_lt(self.dict@[j].term@, term@),
    {
        let ghost ts = dict_terms(self.dict@);
        let mut lo: usize = 0;
        let mut hi: usize = self.dict.len();
        while lo < hi
            invariant
                lo <= hi <= self.dict@.len(),
                ts == dict_terms(self.dict@),
                sorted_terms(ts),
                forall|j: int| 0 <= j < lo ==> lex_lt(self.dict@[j].term@, term@),
                forall|j: int| hi <= j < self.dict@.len() ==> !lex_lt(self.dict@[j].term@, term@),
            decreases hi - lo,
        {
            let mid: usize = lo + (hi - lo) / 2;
            assert(ts[mid as int] == self.dict@[mid as int].term@);
            if bytes_less(self.dict[mid].term.as_slice(), term) {
                proof {
                    assert forall|j: int| 0 <= j < mid + 1 implies lex_lt(
                        self.dict@[j].term@,
                        term@,
                    ) by {
                        assert(ts[j] == self.dict@[j].term@);
                        if j < mid {
                            assert(lex_lt(ts[j], ts[mid as int]));
                            lemma_lex_transitive(ts[j], ts[mid as int], term@, 0);
                        }
                    }
                }
                lo = mid + 1;
            } else {
                proof {
                    assert forall|j: int| mid <= j < self.dict@.len() implies !lex_lt(
                        self.dict@[j].term@,
                        term@,
                    ) by {
                        assert(ts[j] == self.dict@[j].term@);
                        if mid < j && lex_lt(ts[j], term@) {
                            assert(lex_lt(ts[mid as int], ts[j]));
                            lemma_lex_transitive(ts[mid as int], ts[j], term@, 0);
                        }
                    }
                }
                hi = mid;
            }
        }
        lo
    }

    /// The index of `term` in the dictionary, if it is there.
    pub fn lookup(&self, term: &[u8]) -> (r: Option<usize>)
        requires
            self.wf(),
        ensures
            match r {
                Some(i) => term_index(dict_terms(self.dict@), term@) == Some(i as int) && i
                    < self.dict@.len(),
                None => term_index(dict_terms(self.dict@), term@) is None,
            },
    {
        let ghost ts = dict_terms(self.dict@);
        let at = self.rank_of(term);
        if at < self.dict.len() && bytes_equal(self.dict[at].term.as_slice(), term) {
            proof {
                assert(ts[at as int] == self.dict@[at as int].term@);
                lemma_term_index_unique(ts, at as int);
            }
            return Some(at);
        }
        proof {
            lemma_lex_irreflexive(term@, 0);
            assert forall|i: int| 0 <= i < ts.len() implies ts[i] != term@ by {
                assert(ts[i] == self.dict@[i].term@);
                if i > at {
                    assert(ts[at as int] == self.dict@[at as int].term@);
                    assert(lex_lt(ts[at as int], ts[i]));
                }
            }
        }
        None
    }

    /// The posting list of the term at index `i` of the dictionary.
    pub fn postings_at(&self, i: usize) -> (r: Vec<(u32, Vec<u32>)>)
        requires
            self.wf(),
            i < self.dict@.len(),
        ensures
            Some(postings_view(r@)) == stored_postings(self.dict@[i as int].blob@),
            entries_valid(postings_view(r@)),
    {
        assert(blob_ok(self.dict@[i as int].blob@));
        match decode_postings(self.dict[i].blob.as_slice()) {
            Ok(v) => v,
            Err(_) => Vec::new(),
        }
    }

    /// The posting list of `term`, empty where the term is not in the
    /// dictionary.
    pub fn postings_bytes(&self, term: &[u8]) -> (r: Vec<(u32, Vec<u32>)>)
        requires
            self.wf(),
        ensures
            postings_view(r@) == self.postings_spec(term@),
            entries_valid(postings_view(r@)),
    {
        match self.lookup(term) {
            None => {
                let r: Vec<(u32, Vec<u32>)> = Vec::new();
                proof {
                    assert(postings_view(r@) =~= Seq::<(u32, Seq<u32>)>::empty());
                }
                r
            },
            Some(i) => {
                assert(blob_ok(self.dict@[i as int].blob@));
                match decode_postings(self.dict[i].blob.as_slice()) {
                    Ok(v) => v,
                    Err(_) => Vec::new(),
                }
            },
        }
    }

    /// The posting list of `term`, empty where the term is not in the
    /// dictionary.
    pub fn postings(&self, term: &str) -> (r: Vec<(u32, Vec<u32>)>)
        requires
            self.wf(),
        ensures
            postings_view(r@) == self.postings_spec(term.spec_bytes()),
            entries_valid(postings_view(r@)),
    {
        self.postings_bytes(term.as_bytes())
    }

    /// The terms of the dictionary, ascending.
    pub fn terms(&self) -> (r: Vec<Vec<u8>>)
        requires
            self.wf(),
        ensures
            token_views(r@) == dict_terms(self.dict@),
            sorted_terms(token_views(r@)),
    {
        let mut r: Vec<Vec<u8>> = Vec::new();
        let mut i: usize = 0;
        while i < self.dict.len()
            invariant
                i <= self.dict@.len(),
                r@.len() == i,
                forall|j: int| 0 <= j < i ==> (#[trigger] r@[j])@ == self.dict@[j].term@,
            decreases self.dict@.len() - i,
        {
            r.push(copy_bytes(self.dict[i].term.as_slice()));
            i = i + 1;
        }
        proof {
            assert(token_views(r@) =~= dict_terms(self.dict@));
        }
        r
    }
}

impl InvBuilder {
    /// Stores every bucket's posting list and hands the dictionary over.
    pub fn finalize(self) -> (inv: InvertedIndex)
        requires
            self.wf(),
        ensures
            inv.wf(),
            dict_terms(inv.dict@) == bucket_terms(self.terms@),
            forall|i: int|
                0 <= i < inv.dict@.len() ==> (#[trigger] inv.dict@[i]).blob@ == entries_bytes(
                    postings_view(self.terms@[i].docs@),
                    0,
                ),
            forall|t: Seq<u8>| #[trigger] inv.postings_spec(t) == self.bucket(t),
    {
        let mut dict: Vec<DictEntry> = Vec::new();
        let mut i: usize = 0;
        while i < self.terms.len()
            invariant
                i <= self.terms@.len(),
                self.wf(),
                dict@.len() == i,
                forall|j: int|
                    0 <= j < i ==> (#[trigger] dict@[j]).term@ == self.terms@[j].term@
                        && dict@[j].blob@ == entries_bytes(postings_view(self.terms@[j].docs@), 0)
                        && stored_postings(dict@[j].blob@) == Some(
                        postings_view(self.terms@[j].docs@),
                    ) && blob_ok(dict@[j].blob@),
            decreases self.terms@.len() - i,
        {
            assert(bucket_ok(self.terms@[i as int], self.next_min as int));
            let blob = encode_postings(&self.terms[i].docs);
            proof {
                let list = postings_view(self.terms@[i as int].docs@);
                assert forall|k: int| 0 <= k < list.len() implies (#[trigger] list[k]).1.len()
                    <= u64::MAX by {
                    let v = self.terms@[i as int].docs@[k].1;
                    assert(list[k].1 == v@);
                    assert(v.len() == v@.len());
                }
                lemma_postings_roundtrip(list);
            }
            dict.push(DictEntry { term: copy_bytes(self.terms[i].term.as_slice()), blob });
            i = i + 1;
        }
        let inv = InvertedIndex { dict };
        proof {
            assert(dict_terms(inv.dict@) =~= bucket_terms(self.terms@));
            assert forall|t: Seq<u8>| #[trigger] inv.postings_spec(t) == self.bucket(t) by {
                match term_index(dict_terms(inv.dict@), t) {
                    Some(k) => {
                        assert(stored_postings(inv.dict@[k].blob@) == Some(
                            postings_view(self.terms@[k].docs@),
                        ));
                    },
                    None => {},
                }
            }
        }
        inv
    }
}

impl Default for InvBuilder {
    fn default() -> (b: Self)
        ensures
            b.wf(),
            b.terms@.len() == 0,
            b.next_min == 0,
    {
        InvBuilder::new()
    }
}

} // verus!
