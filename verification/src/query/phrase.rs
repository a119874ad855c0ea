//! Exact phrases: documents in which the terms stand at consecutive
//! positions, found by intersecting posting lists from the left.

use crate::index::inverted::{
    blob_ok, dict_terms, entries_valid, postings_view, term_index, InvertedIndex,
};
use crate::util::rrr::strictly_ascending;
use vstd::prelude::*;
use vstd::string::StringSliceAdditionalSpecFns;

verus! {

/// Among the first `m` positions of `pb`, those that directly follow a
/// position of `pa`.
pub open spec fn hits_upto(pa: Seq<u32>, pb: Seq<u32>, m: int) -> Seq<u32>
    decreases m,
{
    if m <= 0 {
        Seq::empty()
    } else {
        let h = hits_upto(pa, pb, m - 1);
        if pb[m - 1] > 0 && pa.contains((pb[m - 1] - 1) as u32) {
            h.push(pb[m - 1])
        } else {
            h
        }
    }
}

/// The positions of `pb` that directly follow a position of `pa`.
pub open spec fn following(pa: Seq<u32>, pb: Seq<u32>) -> Seq<u32> {
    hits_upto(pa, pb, pb.len() as int)
}

/// The positions listed for `doc`, if it is listed.
pub open spec fn doc_positions(list: Seq<(u32, Seq<u32>)>, doc: u32) -> Option<Seq<u32>> {
    if exists|i: int| 0 <= i < list.len() && list[i].0 == doc {
        Some(list[choose|i: int| 0 <= i < list.len() && list[i].0 == doc].1)
    } else {
        None
    }
}

/// Among the first `m` documents of `nxt`, those that `cur` lists too and in
/// which a position of `nxt` directly follows one of `cur`; each with those
/// positions.
pub open spec fn merge_upto(
    cur: Seq<(u32, Seq<u32>)>,
    nxt: Seq<(u32, Seq<u32>)>,
    m: int,
) -> Seq<(u32, Seq<u32>)>
    decreases m,
{
    if m <= 0 {
        Seq::empty()
    } else {
        let r = merge_upto(cur, nxt, m - 1);
        match doc_positions(cur, nxt[m - 1].0) {
            None => r,
            Some(pa) => {
                let h = following(pa, nxt[m - 1].1);
                if h.len() > 0 {
                    r.push((nxt[m - 1].0, h))
                } else {
                    r
                }
            },
        }
    }
}

/// One step of a phrase: from the ends of the phrase so far to the ends of
/// the phrase with one more term.
pub open spec fn extend_phrase(
    cur: Seq<(u32, Seq<u32>)>,
    nxt: Seq<(u32, Seq<u32>)>,
) -> Seq<(u32, Seq<u32>)> {
    merge_upto(cur, nxt, nxt.len() as int)
}

/// For the phrase of the first `k` terms: the documents that hold it, each
/// with the positions at which it ends.
pub open spec fn phrase_ends(inv: &InvertedIndex, terms: Seq<Seq<u8>>, k: int) -> Seq<
    (u32, Seq<u32>),
>
    decreases k,
{
    if k <= 0 {
        Seq::empty()
    } else if k == 1 {
        inv.postings_spec(terms[0])
    } else {
        extend_phrase(phrase_ends(inv, terms, k - 1), inv.postings_spec(terms[k - 1]))
    }
}

/// The positions listed for `doc`; none where it is not listed.
pub open spec fn positions_of(list: Seq<(u32, Seq<u32>)>, doc: u32) -> Seq<u32> {
    match doc_positions(list, doc) {
        Some(pa) => pa,
        None => Seq::empty(),
    }
}

/// Documents strictly ascending.
pub open spec fn docs_ascending(list: Seq<(u32, Seq<u32>)>) -> bool {
    forall|i: int, j: int| 0 <= i < j < list.len() ==> list[i].0 < list[j].0
}

/// Every entry has a position.
pub open spec fn all_occupied(list: Seq<(u32, Seq<u32>)>) -> bool {
    forall|i: int| 0 <= i < list.len() ==> (#[trigger] list[i]).1.len() > 0
}

/// Whether the index lists position `q` of document `doc` for the term `t`.
pub open spec fn occurs_at(inv: &InvertedIndex, t: Seq<u8>, doc: u32, q: int) -> bool {
    0 <= q <= u32::MAX && positions_of(inv.postings_spec(t), doc).contains(q as u32)
}

/// Whether in `doc` the terms stand one after the other from position `p` on.
pub open spec fn phrase_at(inv: &InvertedIndex, terms: Seq<Seq<u8>>, doc: u32, p: int) -> bool {
    forall|i: int| 0 <= i < terms.len() ==> occurs_at(inv, #[trigger] terms[i], doc, p + i)
}

/// Whether `doc` holds the phrase: the terms at consecutive positions.
pub open spec fn holds_phrase(inv: &InvertedIndex, terms: Seq<Seq<u8>>, doc: u32) -> bool {
    exists|p: int| phrase_at(inv, terms, doc, p)
}

pub proof fn lemma_push_contains(s: Seq<u32>, x: u32, q: u32)
    ensures
        s.push(x).contains(q) == (s.contains(q) || x == q),
{
    if s.push(x).contains(q) {
        let i = choose|i: int| 0 <= i < s.push(x).len() && s.push(x)[i] == q;
        if i < s.len() {
            assert(s[i] == q);
        }
    }
    if s.contains(q) {
        let i = choose|i: int| 0 <= i < s.len() && s[i] == q;
        assert(s.push(x)[i] == q);
    }
    if x == q {
        assert(s.push(x)[s.len() as int] == q);
    }
}

/// A position is a hit where it is one of `pb` and its predecessor is one
/// of `pa`.
pub proof fn lemma_hits(pa: Seq<u32>, pb: Seq<u32>, m: int, q: u32)
    requires
        0 <= m <= pb.len(),
    ensures
        hits_upto(pa, pb, m).contains(q) == (pb.take(m).contains(q) && q > 0 && pa.contains(
            (q - 1) as u32,
        )),
    decreases m,
{
    if m > 0 {
        lemma_hits(pa, pb, m - 1, q);
        let h = hits_upto(pa, pb, m - 1);
        assert(pb.take(m) =~= pb.take(m - 1).push(pb[m - 1]));
        lemma_push_contains(pb.take(m - 1), pb[m - 1], q);
        lemma_push_contains(h, pb[m - 1], q);
    } else {
        assert(!pb.take(0).contains(q));
        assert(!hits_upto(pa, pb, 0).contains(q));
    }
}

/// In a list with ascending documents, the positions of the document at
/// index `i` are those of its entry.
pub proof fn lemma_positions_at(list: Seq<(u32, Seq<u32>)>, i: int)
    requires
        docs_ascending(list),
        0 <= i < list.len(),
    ensures
        positions_of(list, list[i].0) == list[i].1,
{
    let j = choose|j: int| 0 <= j < list.len() && list[j].0 == list[i].0;
    if j < i {
        assert(list[j].0 < list[i].0);
    } else if i < j {
        assert(list[i].0 < list[j].0);
    }
}

/// What one step keeps is ascending in its documents, lists only documents
/// of `nxt` below index `m`, and leaves no entry empty.
pub proof fn lemma_merge_shape(cur: Seq<(u32, Seq<u32>)>, nxt: Seq<(u32, Seq<u32>)>, m: int)
    requires
        docs_ascending(nxt),
        0 <= m <= nxt.len(),
    ensures
        docs_ascending(merge_upto(cur, nxt, m)),
        all_occupied(merge_upto(cur, nxt, m)),
        forall|e: int|
            0 <= e < merge_upto(cur, nxt, m).len() ==> exists|j: int|
                0 <= j < m && nxt[j].0 == (#[trigger] merge_upto(cur, nxt, m)[e]).0,
    decreases m,
{
    if m > 0 {
        lemma_merge_shape(cur, nxt, m - 1);
        let r = merge_upto(cur, nxt, m - 1);
        let r2 = merge_upto(cur, nxt, m);
        assert forall|e: int| 0 <= e < r2.len() implies exists|j: int|
            0 <= j < m && nxt[j].0 == (#[trigger] r2[e]).0 by {
            if e < r.len() {
                assert(r2[e] == r[e]);
                let j = choose|j: int| 0 <= j < m - 1 && nxt[j].0 == r[e].0;
                assert(0 <= j < m && nxt[j].0 == r2[e].0);
            } else {
                assert(nxt[m - 1].0 == r2[e].0);
            }
        }
        assert forall|a: int, b: int| 0 <= a < b < r2.len() implies r2[a].0 < r2[b].0 by {
            assert(r2[a] == r[a]);
            if b < r.len() {
                assert(r2[b] == r[b]);
            } else {
                let j = choose|j: int| 0 <= j < m - 1 && nxt[j].0 == r[a].0;
                assert(nxt[j].0 < nxt[m - 1].0);
            }
        }
        assert forall|e: int| 0 <= e < r2.len() implies (#[trigger] r2[e]).1.len() > 0 by {
            if e < r.len() {
                assert(r2[e] == r[e]);
            }
        }
    }
}

/// The positions that one step keeps for a document: those of `nxt` that
/// directly follow one of `cur`, where `nxt` lists the document below
/// index `m`.
pub proof fn lemma_merge_positions(
    cur: Seq<(u32, Seq<u32>)>,
    nxt: Seq<(u32, Seq<u32>)>,
    m: int,
    doc: u32,
)
    requires
        docs_ascending(cur),
        docs_ascending(nxt),
        0 <= m <= nxt.len(),
    ensures
        positions_of(merge_upto(cur, nxt, m), doc) == (if exists|j: int|
            0 <= j < m && nxt[j].0 == doc {
            following(positions_of(cur, doc), positions_of(nxt, doc))
        } else {
            Seq::empty()
        }),
    decreases m,
{
    let r2 = merge_upto(cur, nxt, m);
    if m > 0 {
        lemma_merge_positions(cur, nxt, m - 1, doc);
        lemma_merge_shape(cur, nxt, m - 1);
        lemma_merge_shape(cur, nxt, m);
        let r = merge_upto(cur, nxt, m - 1);
        let d = nxt[m - 1].0;
        let h = following(positions_of(cur, d), nxt[m - 1].1);
        lemma_positions_at(nxt, m - 1);
        if doc == d {
            assert(!(exists|j: int| 0 <= j < m - 1 && nxt[j].0 == doc)) by {
                if exists|j: int| 0 <= j < m - 1 && nxt[j].0 == doc {
                    let j = choose|j: int| 0 <= j < m - 1 && nxt[j].0 == doc;
                    assert(nxt[j].0 < nxt[m - 1].0);
                }
            }
            assert(nxt[m - 1].0 == doc);
            if doc_positions(cur, d) is Some && h.len() > 0 {
                assert(r2 == r.push((d, h)));
                lemma_positions_at(r2, r2.len() - 1);
            } else {
                assert(r2 == r);
                if doc_positions(cur, d) is None {
                    assert(following(Seq::<u32>::empty(), nxt[m - 1].1).len() == 0) by {
                        lemma_no_hits(nxt[m - 1].1, nxt[m - 1].1.len() as int);
                    }
                }
                assert(h =~= Seq::<u32>::empty());
            }
        } else {
            if exists|j: int| 0 <= j < m && nxt[j].0 == doc {
                let j = choose|j: int| 0 <= j < m && nxt[j].0 == doc;
                assert(0 <= j < m - 1 && nxt[j].0 == doc);
            }
            if r2 != r {
                assert(r2 == r.push((d, h)));
                if exists|e: int| 0 <= e < r2.len() && r2[e].0 == doc {
                    let e = choose|e: int| 0 <= e < r2.len() && r2[e].0 == doc;
                    assert(e < r.len());
                    assert(r[e].0 == doc);
                    lemma_positions_at(r, e);
                    lemma_positions_at(r2, e);
                } else {
                    assert forall|e: int| 0 <= e < r.len() implies r[e].0 != doc by {
                        assert(r2[e] == r[e]);
                    }
                }
            }
        }
    } else {
        assert(r2.len() == 0);
    }
}

/// Nothing follows a position of an empty list.
pub proof fn lemma_no_hits(pb: Seq<u32>, m: int)
    ensures
        hits_upto(Seq::<u32>::empty(), pb, m).len() == 0,
    decreases m,
{
    if m > 0 {
        lemma_no_hits(pb, m - 1);
        assert(!Seq::<u32>::empty().contains((pb[m - 1] - 1) as u32));
    }
}

/// The posting list of a term in a well-formed index has ascending
/// documents, none without a position.
pub proof fn lemma_postings_shape(inv: &InvertedIndex, t: Seq<u8>)
    requires
        inv.wf(),
    ensures
        docs_ascending(inv.postings_spec(t)),
        all_occupied(inv.postings_spec(t)),
{
    match term_index(dict_terms(inv.dict@), t) {
        Some(i) => {
            assert(blob_ok(inv.dict@[i].blob@));
        },
        None => {},
    }
}

/// The ends of a phrase have ascending documents, none without a position.
pub proof fn lemma_phrase_ends_shape(inv: &InvertedIndex, terms: Seq<Seq<u8>>, k: int)
    requires
        inv.wf(),
        0 <= k <= terms.len(),
    ensures
        docs_ascending(phrase_ends(inv, terms, k)),
        all_occupied(phrase_ends(inv, terms, k)),
    decreases k,
{
    if k == 1 {
        lemma_postings_shape(inv, terms[0]);
    } else if k > 1 {
        let nxt = inv.postings_spec(terms[k - 1]);
        lemma_postings_shape(inv, terms[k - 1]);
        lemma_merge_shape(phrase_ends(inv, terms, k - 1), nxt, nxt.len() as int);
    }
}

/// The phrase of the first `k` terms ends at position `q` of `doc` exactly
/// where each of the terms stands at its place before `q`.
pub proof fn lemma_phrase_ends(inv: &InvertedIndex, terms: Seq<Seq<u8>>, k: int, doc: u32, q: int)
    requires
        inv.wf(),
        1 <= k <= terms.len(),
    ensures
        (0 <= q <= u32::MAX && positions_of(phrase_ends(inv, terms, k), doc).contains(q as u32))
            == (forall|i: int|
            0 <= i < k ==> occurs_at(inv, #[trigger] terms[i], doc, q - (k - 1) + i)),
    decreases k,
{
    if k == 1 {
        assert(occurs_at(inv, terms[0], doc, q - 0 + 0) == (0 <= q <= u32::MAX && positions_of(
            phrase_ends(inv, terms, 1),
            doc,
        ).contains(q as u32)));
    } else {
        let cur = phrase_ends(inv, terms, k - 1);
        let nxt = inv.postings_spec(terms[k - 1]);
        lemma_phrase_ends_shape(inv, terms, k - 1);
        lemma_postings_shape(inv, terms[k - 1]);
        lemma_merge_positions(cur, nxt, nxt.len() as int, doc);
        lemma_phrase_ends(inv, terms, k - 1, doc, q - 1);
        let pa = positions_of(cur, doc);
        let pb = positions_of(nxt, doc);
        let ends = positions_of(phrase_ends(inv, terms, k), doc);
        if !(exists|j: int| 0 <= j < nxt.len() && nxt[j].0 == doc) {
            assert(pb =~= Seq::<u32>::empty());
            assert(following(pa, pb) =~= Seq::<u32>::empty());
        }
        assert(ends == following(pa, pb));
        if 0 <= q <= u32::MAX {
            lemma_hits(pa, pb, pb.len() as int, q as u32);
            assert(pb.take(pb.len() as int) =~= pb);
        }
        let left = 0 <= q <= u32::MAX && ends.contains(q as u32);
        let right = forall|i: int|
            0 <= i < k ==> occurs_at(inv, #[trigger] terms[i], doc, q - (k - 1) + i);
        let before = forall|i: int|
            0 <= i < k - 1 ==> occurs_at(inv, #[trigger] terms[i], doc, q - 1 - (k - 2) + i);
        if left {
            assert(occurs_at(inv, terms[k - 1], doc, q));
            assert(before);
            assert forall|i: int| 0 <= i < k implies occurs_at(
                inv,
                #[trigger] terms[i],
                doc,
                q - (k - 1) + i,
            ) by {
                if i < k - 1 {
                    assert(occurs_at(inv, terms[i], doc, q - 1 - (k - 2) + i));
                }
            }
        }
        if right {
            assert(occurs_at(inv, terms[k - 1], doc, q - (k - 1) + (k - 1)));
            assert forall|i: int| 0 <= i < k - 1 implies occurs_at(
                inv,
                #[trigger] terms[i],
                doc,
                q - 1 - (k - 2) + i,
            ) by {
                assert(occurs_at(inv, terms[i], doc, q - (k - 1) + i));
            }
            assert(q - 1 >= 0) by {
                assert(occurs_at(inv, terms[0], doc, q - (k - 1) + 0));
            }
            assert(left);
        }
    }
}

/// A document is among the ends of a phrase exactly where it holds the
/// phrase: the terms at consecutive positions.
pub proof fn lemma_phrase_iff(inv: &InvertedIndex, terms: Seq<Seq<u8>>, doc: u32)
    requires
        inv.wf(),
        terms.len() >= 1,
    ensures
        doc_ids(phrase_ends(inv, terms, terms.len() as int)).contains(doc) == holds_phrase(
            inv,
            terms,
            doc,
        ),
{
    let m = terms.len() as int;
    let ends = phrase_ends(inv, terms, m);
    lemma_phrase_ends_shape(inv, terms, m);
    if doc_ids(ends).contains(doc) {
        let e = choose|e: int| 0 <= e < doc_ids(ends).len() && doc_ids(ends)[e] == doc;
        assert(ends[e].0 == doc);
        lemma_positions_at(ends, e);
        let q = ends[e].1[0];
        assert(ends[e].1.contains(q));
        lemma_phrase_ends(inv, terms, m, doc, q as int);
        let p = q - (m - 1);
        assert forall|i: int| 0 <= i < terms.len() implies occurs_at(
            inv,
            #[trigger] terms[i],
            doc,
            p + i,
        ) by {
            assert(occurs_at(inv, terms[i], doc, q - (m - 1) + i));
        }
        assert(phrase_at(inv, terms, doc, p));
    }
    if holds_phrase(inv, terms, doc) {
        let p = choose|p: int| phrase_at(inv, terms, doc, p);
        let q = p + m - 1;
        assert forall|i: int| 0 <= i < m implies occurs_at(
            inv,
            #[trigger] terms[i],
            doc,
            q - (m - 1) + i,
        ) by {
            assert(occurs_at(inv, terms[i], doc, p + i));
        }
        lemma_phrase_ends(inv, terms, m, doc, q);
        assert(occurs_at(inv, terms[m - 1], doc, p + (m - 1)));
        assert(positions_of(ends, doc).contains(q as u32));
        assert(doc_positions(ends, doc) is Some);
        let e = choose|e: int| 0 <= e < ends.len() && ends[e].0 == doc;
        assert(doc_ids(ends)[e] == doc);
    }
}

/// The documents of a list, in its order.
pub open spec fn doc_ids(list: Seq<(u32, Seq<u32>)>) -> Seq<u32> {
    list.map_values(|e: (u32, Seq<u32>)| e.0)
}

/// The bytes of each term.
pub open spec fn term_bytes(terms: Seq<&str>) -> Seq<Seq<u8>> {
    terms.map_values(|s: &str| s.spec_bytes())
}

/// The positions of `pb` that directly follow a position of `pa`.
pub fn adjacent_hits(pa: &Vec<u32>, pb: &Vec<u32>) -> (hits: Vec<u32>)
    requires
        strictly_ascending(pa@),
        strictly_ascending(pb@),
    ensures
        hits@ == following(pa@, pb@),
        strictly_ascending(hits@),
{
    let mut hits: Vec<u32> = Vec::new();
    let mut ia: usize = 0;
    let mut ib: usize = 0;
    while ib < pb.len()
        invariant
            ia <= pa@.len(),
            ib <= pb@.len(),
            strictly_ascending(pa@),
            strictly_ascending(pb@),
            hits@ == hits_upto(pa@, pb@, ib as int),
            strictly_ascending(hits@),
            forall|k: int| 0 <= k < hits@.len() && ib < pb@.len() ==> hits@[k] < pb@[ib as int],
            forall|i: int| 0 <= i < ia && ib < pb@.len() ==> pa@[i] + 1 < pb@[ib as int],
        decreases (pa@.len() - ia) + (pb@.len() - ib),
    {
        let q: u32 = pb[ib];
        if ia < pa.len() && (pa[ia] as u64) + 1 < q as u64 {
            ia = ia + 1;
        } else {
            if ia < pa.len() && (pa[ia] as u64) + 1 == q as u64 {
                proof {
                    assert(pa@[ia as int] == (q - 1) as u32);
                    assert(pa@.contains((q - 1) as u32));
                }
                hits.push(q);
            } else {
                proof {
                    if q > 0 && pa@.contains((q - 1) as u32) {
                        let i = choose|i: int| 0 <= i < pa@.len() && pa@[i] == (q - 1) as u32;
                        if i > ia {
                            assert(pa@[ia as int] < pa@[i]);
                        }
                    }
                }
            }
            proof {
                if ib + 1 < pb@.len() {
                    assert(pb@[ib as int] < pb@[ib + 1]);
                }
            }
            ib = ib + 1;
        }
    }
    hits
}

/// The documents listed by both `cur` and `nxt` in which a position of `nxt`
/// directly follows one of `cur`, each with those positions.
pub fn merge_step(cur: &Vec<(u32, Vec<u32>)>, nxt: &Vec<(u32, Vec<u32>)>) -> (merged: Vec<
    (u32, Vec<u32>),
>)
    requires
        entries_valid(postings_view(cur@)),
        entries_valid(postings_view(nxt@)),
    ensures
        postings_view(merged@) == extend_phrase(postings_view(cur@), postings_view(nxt@)),
        entries_valid(postings_view(merged@)),
{
    let ghost vc = postings_view(cur@);
    let ghost vn = postings_view(nxt@);
    let mut merged: Vec<(u32, Vec<u32>)> = Vec::new();
    let mut a: usize = 0;
    let mut b: usize = 0;
    proof {
        assert(postings_view(merged@) =~= Seq::<(u32, Seq<u32>)>::empty());
    }
    while b < nxt.len()
        invariant
            a <= cur@.len(),
            b <= nxt@.len(),
            vc == postings_view(cur@),
            vn == postings_view(nxt@),
            entries_valid(vc),
            entries_valid(vn),
            postings_view(merged@) == merge_upto(vc, vn, b as int),
            entries_valid(postings_view(merged@)),
            forall|k: int|
                0 <= k < merged@.len() && b < nxt@.len() ==> (#[trigger] merged@[k]).0
                    < nxt@[b as int].0,
            forall|i: int| 0 <= i < a && b < nxt@.len() ==> (#[trigger] cur@[i]).0 < nxt@[b as int].0,
        decreases (cur@.len() - a) + (nxt@.len() - b),
    {
        let doc: u32 = nxt[b].0;
        assert(vn[b as int] == (doc, nxt@[b as int].1@));
        if a < cur.len() && cur[a].0 < doc {
            a = a + 1;
        } else {
            let ghost before = postings_view(merged@);
            if a < cur.len() && cur[a].0 == doc {
                proof {
                    assert(vc[a as int] == (doc, cur@[a as int].1@));
                    assert(strictly_ascending(vc[a as int].1));
                    assert(strictly_ascending(vn[b as int].1));
                    let i = choose|i: int| 0 <= i < vc.len() && vc[i].0 == doc;
                    if i < a {
                        assert(vc[i].0 < vc[a as int].0);
                    } else if i > a {
                        assert(vc[a as int].0 < vc[i].0);
                    }
                }
                let hits = adjacent_hits(&cur[a].1, &nxt[b].1);
                if hits.len() > 0 {
                    proof {
                        assert(postings_view(merged@.push((doc, hits))) =~= before.push(
                            (doc, hits@),
                        ));
                        let after = before.push((doc, hits@));
                        assert forall|x: int, y: int| 0 <= x < y < after.len() implies after[x].0
                            < after[y].0 by {
                            assert(before[x].0 == merged@[x].0);
                            if y < before.len() {
                                assert(before[x].0 < before[y].0);
                            }
                        }
                        assert forall|x: int| 0 <= x < after.len() implies strictly_ascending(
                            #[trigger] after[x].1,
                        ) && after[x].1.len() > 0 by {
                            if x < before.len() {
                                assert(after[x] == before[x]);
                            }
                        }
                    }
                    merged.push((doc, hits));
                }
            } else {
                proof {
                    if exists|i: int| 0 <= i < vc.len() && vc[i].0 == doc {
                        let i = choose|i: int| 0 <= i < vc.len() && vc[i].0 == doc;
                        assert(vc[i].0 == cur@[i].0);
                        if i > a {
                            assert(vc[a as int].0 < vc[i].0);
                            assert(vc[a as int].0 == cur@[a as int].0);
                        }
                    }
                }
            }
            proof {
                if b + 1 < nxt@.len() {
                    assert(vn[b as int].0 < vn[b + 1].0);
                    assert(vn[b + 1].0 == nxt@[b + 1].0);
                }
                if a < cur@.len() {
                    assert(vc[a as int].0 == cur@[a as int].0);
                }
            }
            b = b + 1;
        }
    }
    merged
}

/// The documents that hold the terms at consecutive positions, ascending.
/// No term, no document.
pub fn phrase_query(inv: &InvertedIndex, terms: &[&str]) -> (docs: Vec<u32>)
    requires
        inv.wf(),
    ensures
        docs@ == doc_ids(phrase_ends(inv, term_bytes(terms@), terms@.len() as int)),
        forall|i: int, j: int| 0 <= i < j < docs@.len() ==> docs@[i] < docs@[j],
        terms@.len() >= 1 ==> forall|doc: u32| #[trigger]
            docs@.contains(doc) == holds_phrase(inv, term_bytes(terms@), doc),
{
    let ghost tb = term_bytes(terms@);
    let mut docs: Vec<u32> = Vec::new();
    if terms.len() == 0 {
        proof {
            assert(docs@ =~= doc_ids(phrase_ends(inv, tb, 0)));
        }
        return docs;
    }
    assert(tb[0] == terms@[0].spec_bytes());
    let mut cur = inv.postings(terms[0]);
    let mut k: usize = 1;
    while k < terms.len()
        invariant
            1 <= k <= terms@.len(),
            inv.wf(),
            tb == term_bytes(terms@),
            entries_valid(postings_view(cur@)),
            postings_view(cur@) == phrase_ends(inv, tb, k as int),
        decreases terms@.len() - k,
    {
        assert(tb[k as int] == terms@[k as int].spec_bytes());
        let nxt = inv.postings(terms[k]);
        cur = merge_step(&cur, &nxt);
        k = k + 1;
    }
    let ghost ends = postings_view(cur@);
    let mut i: usize = 0;
    while i < cur.len()
        invariant
            i <= cur@.len(),
            ends == postings_view(cur@),
            entries_valid(ends),
            docs@ == doc_ids(ends).take(i as int),
        decreases cur@.len() - i,
    {
        assert(ends[i as int].0 == cur@[i as int].0);
        docs.push(cur[i].0);
        i = i + 1;
        proof {
            assert(docs@ =~= doc_ids(ends).take(i as int));
        }
    }
    proof {
        assert(docs@ =~= doc_ids(ends));
        assert forall|x: int, y: int| 0 <= x < y < docs@.len() implies docs@[x] < docs@[y] by {
            assert(ends[x].0 < ends[y].0);
        }
        assert forall|doc: u32| #[trigger]
            docs@.contains(doc) == holds_phrase(inv, tb, doc) by {
            lemma_phrase_iff(inv, tb, doc);
        }
    }
    docs
}

} // verus!
