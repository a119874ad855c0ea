//! The best `k` of a list of scored documents. A score is given by a 32-bit
//! key that orders as the score does; of two documents with the same key the
//! one with the smaller id comes first.

use crate::util::varint::{lemma_sorted_ascending, leq_u64, sort_u64s};
use vstd::prelude::*;

verus! {

/// A key and a document in one value that orders as ranking does: the
/// greater key first, then the smaller document.
pub open spec fn pack(e: (u32, u32)) -> u64 {
    ((u32::MAX - e.0) * 0x1_0000_0000 + e.1) as u64
}

/// The key and the document of a packed value.
pub open spec fn unpack(p: u64) -> (u32, u32) {
    ((u32::MAX - p / 0x1_0000_0000) as u32, (p % 0x1_0000_0000) as u32)
}

/// Whether `a` may stand before `b` in a ranking.
pub open spec fn outranks(a: (u32, u32), b: (u32, u32)) -> bool {
    a.0 > b.0 || (a.0 == b.0 && a.1 <= b.1)
}

/// All items in ranking order.
pub open spec fn ranked(items: Seq<(u32, u32)>) -> Seq<(u32, u32)> {
    items.map_values(|e: (u32, u32)| pack(e)).sort_by(leq_u64()).map_values(|p: u64| unpack(p))
}

/// A ranking holds the items it was made of, the better before the worse.
pub proof fn lemma_ranked(items: Seq<(u32, u32)>)
    ensures
        ranked(items).len() == items.len(),
        forall|e: (u32, u32)| items.contains(e) <==> #[trigger] ranked(items).contains(e),
        forall|i: int, j: int|
            0 <= i <= j < ranked(items).len() ==> outranks(
                #[trigger] ranked(items)[i],
                #[trigger] ranked(items)[j],
            ),
{
    let packed = items.map_values(|e: (u32, u32)| pack(e));
    let sorted = packed.sort_by(leq_u64());
    let r = ranked(items);
    lemma_sorted_ascending(packed);
    assert forall|e: (u32, u32)| items.contains(e) <==> #[trigger] r.contains(e) by {
        if items.contains(e) {
            let i = choose|i: int| 0 <= i < items.len() && items[i] == e;
            assert(packed[i] == pack(e));
            assert(packed.contains(pack(e)));
            assert(sorted.contains(pack(e)));
            let j = choose|j: int| 0 <= j < sorted.len() && sorted[j] == pack(e);
            assert(r[j] == unpack(pack(e)));
            assert(unpack(pack(e)) == e);
        }
        if r.contains(e) {
            let j = choose|j: int| 0 <= j < r.len() && r[j] == e;
            assert(sorted.contains(sorted[j]));
            assert(packed.contains(sorted[j]));
            let i = choose|i: int| 0 <= i < packed.len() && packed[i] == sorted[j];
            assert(packed[i] == pack(items[i]));
            assert(unpack(pack(items[i])) == items[i]);
            assert(items[i] == e);
        }
    }
    assert forall|i: int, j: int| 0 <= i <= j < r.len() implies outranks(
        #[trigger] r[i],
        #[trigger] r[j],
    ) by {
        assert(sorted[i] <= sorted[j]);
        assert(r[i] == unpack(sorted[i]) && r[j] == unpack(sorted[j]));
    }
}

/// The best `k` items, best first; all of them where there are fewer.
pub fn top_k(items: &Vec<(u32, u32)>, k: usize) -> (out: Vec<(u32, u32)>)
    ensures
        out@ == ranked(items@).take(if k <= items@.len() {
            k as int
        } else {
            items@.len() as int
        }),
{
    let mut packed: Vec<u64> = Vec::new();
    let mut i: usize = 0;
    while i < items.len()
        invariant
            i <= items@.len(),
            packed@ == items@.map_values(|e: (u32, u32)| pack(e)).take(i as int),
        decreases items@.len() - i,
    {
        let key: u32 = items[i].0;
        let doc: u32 = items[i].1;
        packed.push((u32::MAX - key) as u64 * 0x1_0000_0000 + doc as u64);
        i = i + 1;
        proof {
            assert(packed@ =~= items@.map_values(|e: (u32, u32)| pack(e)).take(i as int));
        }
    }
    proof {
        assert(packed@ =~= items@.map_values(|e: (u32, u32)| pack(e)));
    }
    sort_u64s(&mut packed);
    let take: usize = if k <= packed.len() {
        k
    } else {
        packed.len()
    };
    let ghost sorted = packed@;
    proof {
        lemma_sorted_ascending(items@.map_values(|e: (u32, u32)| pack(e)));
    }
    let mut out: Vec<(u32, u32)> = Vec::new();
    let mut j: usize = 0;
    while j < take
        invariant
            j <= take <= packed@.len(),
            packed@ == sorted,
            out@ == sorted.map_values(|p: u64| unpack(p)).take(j as int),
        decreases take - j,
    {
        let p: u64 = packed[j];
        out.push(((u32::MAX as u64 - p / 0x1_0000_0000) as u32, (p % 0x1_0000_0000) as u32));
        j = j + 1;
        proof {
            assert(out@ =~= sorted.map_values(|p: u64| unpack(p)).take(j as int));
        }
    }
    out
}

} // verus!
