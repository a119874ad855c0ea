//! The reader interface that ranking is written against, and its
//! implementation over the positional inverted index.

use crate::index::inverted::{
    blob_ok, dict_terms, lemma_term_index_unique, postings_view, stored_postings, InvertedIndex,
};
use crate::text::tokenize::token_views;
use std::collections::HashMap;
use vstd::prelude::*;

verus! {

/// `a + b`, held at the greatest 32-bit value.
pub open spec fn capped_sum(a: int, b: int) -> u32 {
    if a + b > u32::MAX {
        u32::MAX
    } else {
        (a + b) as u32
    }
}

/// A length as a 32-bit count, held at the greatest 32-bit value.
pub open spec fn capped_len(n: nat) -> u32 {
    capped_sum(n as int, 0)
}

/// Each document of a posting list with the number of its positions.
pub open spec fn term_frequencies(list: Seq<(u32, Seq<u32>)>) -> Seq<(u32, u32)> {
    list.map_values(|e: (u32, Seq<u32>)| (e.0, capped_len(e.1.len())))
}

/// The lengths after the first `k` entries of `list` were added to `m`:
/// every entry adds its frequency to the length of its document.
pub open spec fn add_frequencies(m: Map<u32, u32>, list: Seq<(u32, u32)>, k: int) -> Map<u32, u32>
    decreases k,
{
    if k <= 0 {
        m
    } else {
        let before = add_frequencies(m, list, k - 1);
        let doc = list[k - 1].0;
        let old_len: int = if before.contains_key(doc) {
            before[doc] as int
        } else {
            0
        };
        before.insert(doc, capped_sum(old_len, list[k - 1].1 as int))
    }
}

/// The occurrences of `doc` in a posting list: the number of positions of
/// its entry, 0 where it has none.
pub open spec fn occurrences(list: Seq<(u32, Seq<u32>)>, doc: u32, k: int) -> nat
    decreases k,
{
    if k <= 0 {
        0
    } else {
        occurrences(list, doc, k - 1) + if list[k - 1].0 == doc {
            list[k - 1].1.len()
        } else {
            0
        }
    }
}

/// The least bound above every document of a valid posting list.
pub open spec fn list_bound(list: Seq<(u32, Seq<u32>)>) -> int {
    if list.len() == 0 {
        0
    } else {
        list.last().0 + 1
    }
}

/// The minimum API needed by a ranking layer.
pub trait InvertedReader {
    /// What the reader must satisfy to be read.
    spec fn readable(&self) -> bool;

    /// The terms of the reader, ascending.
    spec fn term_list(&self) -> Seq<Seq<u8>>;

    /// The documents of `term`, each with the number of its occurrences.
    spec fn frequencies(&self, term: Seq<u8>) -> Seq<(u32, u32)>;

    /// The greatest document id plus one, held at the greatest 32-bit
    /// value; 0 where there is no document.
    spec fn docs_end(&self) -> u32;

    /// The number of token occurrences in `doc`, held at the greatest 32-bit
    /// value; `None` where there is none.
    spec fn length_of(&self, doc: u32) -> Option<u32>;

    /// The greatest document id plus one; 0 where there is no document.
    fn num_docs(&self) -> (n: u32)
        requires
            self.readable(),
        ensures
            n == self.docs_end(),
    ;

    /// The terms, ascending.
    fn terms(&self) -> (r: Vec<Vec<u8>>)
        requires
            self.readable(),
        ensures
            token_views(r@) == self.term_list(),
    ;

    /// The documents of `term`, each with the number of its occurrences.
    fn postings(&self, term: &[u8]) -> (r: Vec<(u32, u32)>)
        requires
            self.readable(),
        ensures
            r@ == self.frequencies(term@),
    ;

    /// The length of `doc`: the number of token occurrences in it, `None`
    /// where it has none.
    fn doc_len(&self, doc: u32) -> (r: Option<u32>)
        requires
            self.readable(),
        ensures
            r == self.length_of(doc),
    ;
}

/// The inverted index as a reader.
pub struct InvertedAdapter {
    pub index: InvertedIndex,
}

impl InvertedAdapter {
    /// Wraps an index.
    pub fn from_index(index: InvertedIndex) -> (r: Self)
        ensures
            r.index == index,
    {
        InvertedAdapter { index }
    }

    /// The least bound above every document of the first `m` terms.
    pub open spec fn docs_bound(&self, m: int) -> int
        decreases m,
    {
        if m <= 0 {
            0
        } else {
            let rest = self.docs_bound(m - 1);
            let here = list_bound(stored_postings(self.index.dict@[m - 1].blob@).unwrap());
            if here > rest {
                here
            } else {
                rest
            }
        }
    }

    /// Every document of the first `m` terms is below their bound, and a
    /// bound above 0 is one more than one of them.
    pub proof fn lemma_docs_bound(&self, m: int)
        requires
            self.index.wf(),
            0 <= m <= self.index.dict@.len(),
        ensures
            forall|i: int, e: int|
                0 <= i < m && 0 <= e < stored_postings(self.index.dict@[i].blob@).unwrap().len()
                    ==> (#[trigger] stored_postings(self.index.dict@[i].blob@).unwrap()[e]).0
                    < self.docs_bound(m),
            self.docs_bound(m) > 0 ==> exists|i: int, e: int|
                0 <= i < m && 0 <= e < stored_postings(self.index.dict@[i].blob@).unwrap().len()
                    && (#[trigger] stored_postings(self.index.dict@[i].blob@).unwrap()[e]).0 + 1
                    == self.docs_bound(m),
        decreases m,
    {
        if m > 0 {
            self.lemma_docs_bound(m - 1);
            let list = stored_postings(self.index.dict@[m - 1].blob@).unwrap();
            assert(blob_ok(self.index.dict@[m - 1].blob@));
            assert forall|e: int| 0 <= e < list.len() implies (#[trigger] list[e]).0 < list_bound(
                list,
            ) by {
                if e < list.len() - 1 {
                    assert(list[e].0 < list[list.len() - 1].0);
                }
            }
            if self.docs_bound(m) > 0 {
                if list_bound(list) > self.docs_bound(m - 1) {
                    assert(list[list.len() - 1].0 + 1 == self.docs_bound(m));
                } else {
                    let (i, e) = choose|i: int, e: int|
                        0 <= i < m - 1 && 0 <= e < stored_postings(
                            self.index.dict@[i].blob@,
                        ).unwrap().len() && (#[trigger] stored_postings(
                            self.index.dict@[i].blob@,
                        ).unwrap()[e]).0 + 1 == self.docs_bound(m - 1);
                    assert(stored_postings(self.index.dict@[i].blob@).unwrap()[e].0 + 1
                        == self.docs_bound(m));
                }
            }
        }
    }

    /// The number of occurrences of the first `m` terms in `doc`.
    pub open spec fn doc_total(&self, doc: u32, m: int) -> nat
        decreases m,
    {
        if m <= 0 {
            0
        } else {
            let list = stored_postings(self.index.dict@[m - 1].blob@).unwrap();
            self.doc_total(doc, m - 1) + occurrences(list, doc, list.len() as int)
        }
    }
}

impl InvertedReader for InvertedAdapter {
    open spec fn readable(&self) -> bool {
        self.index.wf()
    }

    open spec fn term_list(&self) -> Seq<Seq<u8>> {
        dict_terms(self.index.dict@)
    }

    open spec fn frequencies(&self, term: Seq<u8>) -> Seq<(u32, u32)> {
        term_frequencies(self.index.postings_spec(term))
    }

    open spec fn docs_end(&self) -> u32 {
        capped_sum(self.docs_bound(self.index.dict@.len() as int), 0)
    }

    open spec fn length_of(&self, doc: u32) -> Option<u32> {
        if self.doc_total(doc, self.index.dict@.len() as int) == 0 {
            None
        } else {
            Some(capped_sum(self.doc_total(doc, self.index.dict@.len() as int) as int, 0))
        }
    }

    fn num_docs(&self) -> (n: u32) {
        let mut bound: u64 = 0;
        let mut i: usize = 0;
        while i < self.index.dict.len()
            invariant
                i <= self.index.dict@.len(),
                self.index.wf(),
                bound == self.docs_bound(i as int),
                bound <= u32::MAX + 1,
            decreases self.index.dict@.len() - i,
        {
            assert(blob_ok(self.index.dict@[i as int].blob@));
            let list = self.index.postings_at(i);
            let count: usize = list.len();
            if count > 0 {
                assert(postings_view(list@)[count - 1].0 == list@[count - 1].0);
                let here: u64 = list[count - 1].0 as u64 + 1;
                if here > bound {
                    bound = here;
                }
            }
            i = i + 1;
        }
        if bound > u32::MAX as u64 {
            u32::MAX
        } else {
            bound as u32
        }
    }

    fn terms(&self) -> (r: Vec<Vec<u8>>) {
        self.index.terms()
    }

    fn postings(&self, term: &[u8]) -> (r: Vec<(u32, u32)>) {
        let list = self.index.postings_bytes(term);
        let ghost view = postings_view(list@);
        let mut r: Vec<(u32, u32)> = Vec::new();
        let mut i: usize = 0;
        while i < list.len()
            invariant
                i <= list@.len(),
                view == postings_view(list@),
                r@ == term_frequencies(view).take(i as int),
            decreases list@.len() - i,
        {
            assert(view[i as int] == (list@[i as int].0, list@[i as int].1@));
            let count: usize = list[i].1.len();
            let tf: u32 = if count > u32::MAX as usize {
                u32::MAX
            } else {
                count as u32
            };
            r.push((list[i].0, tf));
            i = i + 1;
            proof {
                assert(r@ =~= term_frequencies(view).take(i as int));
            }
        }
        proof {
            assert(r@ =~= term_frequencies(view));
        }
        r
    }

    fn doc_len(&self, doc: u32) -> (r: Option<u32>) {
        let mut total: u64 = 0;
        let mut i: usize = 0;
        while i < self.index.dict.len()
            invariant
                i <= self.index.dict@.len(),
                self.index.wf(),
                total == capped_sum(self.doc_total(doc, i as int) as int, 0),
            decreases self.index.dict@.len() - i,
        {
            assert(blob_ok(self.index.dict@[i as int].blob@));
            let list = self.index.postings_at(i);
            let ghost view = postings_view(list@);
            let ghost base = self.doc_total(doc, i as int);
            let mut k: usize = 0;
            while k < list.len()
                invariant
                    k <= list@.len(),
                    view == postings_view(list@),
                    total == capped_sum((base + occurrences(view, doc, k as int)) as int, 0),
                decreases list@.len() - k,
            {
                assert(view[k as int] == (list@[k as int].0, list@[k as int].1@));
                if list[k].0 == doc {
                    let count: u64 = list[k].1.len() as u64;
                    total = if count > u32::MAX as u64 - total {
                        u32::MAX as u64
                    } else {
                        total + count
                    };
                }
                k = k + 1;
            }
            i = i + 1;
        }
        if total == 0 {
            None
        } else {
            Some(total as u32)
        }
    }
}

/// The length of every document that occurs in some posting list of
/// `reader`: the frequencies of all terms, added up document by document and
/// held at the greatest 32-bit value.
pub open spec fn doc_lens_upto<R: InvertedReader>(reader: &R, m: int) -> Map<u32, u32>
    decreases m,
{
    if m <= 0 {
        Map::empty()
    } else {
        let list = reader.frequencies(reader.term_list()[m - 1]);
        add_frequencies(doc_lens_upto(reader, m - 1), list, list.len() as int)
    }
}

/// Adding the frequencies of a posting list adds, for every document, the
/// number of its positions in the list.
pub proof fn lemma_add_frequencies(
    m0: Map<u32, u32>,
    list: Seq<(u32, Seq<u32>)>,
    k: int,
    doc: u32,
    base: nat,
)
    requires
        0 <= k <= list.len(),
        forall|i: int| 0 <= i < list.len() ==> (#[trigger] list[i]).1.len() > 0,
        m0.contains_key(doc) <==> base > 0,
        m0.contains_key(doc) ==> m0[doc] == capped_sum(base as int, 0),
    ensures
        add_frequencies(m0, term_frequencies(list), k).contains_key(doc) <==> base + occurrences(
            list,
            doc,
            k,
        ) > 0,
        add_frequencies(m0, term_frequencies(list), k).contains_key(doc) ==> add_frequencies(
            m0,
            term_frequencies(list),
            k,
        )[doc] == capped_sum((base + occurrences(list, doc, k)) as int, 0),
    decreases k,
{
    if k > 0 {
        lemma_add_frequencies(m0, list, k - 1, doc, base);
        assert(term_frequencies(list)[k - 1] == (list[k - 1].0, capped_len(list[k - 1].1.len())));
        assert(list[k - 1].1.len() > 0);
    }
}

/// The lengths computed from all terms are the documents' totals: a
/// document has a length exactly where some term occurs in it, and the
/// length is the number of its token occurrences, held at the greatest
/// 32-bit value.
pub proof fn lemma_doc_lens(adapter: &InvertedAdapter, m: int, doc: u32)
    requires
        adapter.index.wf(),
        0 <= m <= adapter.index.dict@.len(),
    ensures
        doc_lens_upto(adapter, m).contains_key(doc) <==> adapter.doc_total(doc, m) > 0,
        doc_lens_upto(adapter, m).contains_key(doc) ==> doc_lens_upto(adapter, m)[doc]
            == capped_sum(adapter.doc_total(doc, m) as int, 0),
    decreases m,
{
    if m > 0 {
        lemma_doc_lens(adapter, m - 1, doc);
        let ts = dict_terms(adapter.index.dict@);
        lemma_term_index_unique(ts, m - 1);
        assert(ts[m - 1] == adapter.index.dict@[m - 1].term@);
        assert(blob_ok(adapter.index.dict@[m - 1].blob@));
        let list = stored_postings(adapter.index.dict@[m - 1].blob@).unwrap();
        assert(adapter.index.postings_spec(ts[m - 1]) == list);
        assert(adapter.term_list()[m - 1] == ts[m - 1]);
        assert(term_frequencies(list).len() == list.len());
        lemma_add_frequencies(
            doc_lens_upto(adapter, m - 1),
            list,
            list.len() as int,
            doc,
            adapter.doc_total(doc, m - 1),
        );
    }
}

/// Computes all document lengths up front.
pub fn compute_doc_lens<R: InvertedReader>(reader: &R) -> (lens: HashMap<u32, u32>)
    requires
        reader.readable(),
    ensures
        lens@ == doc_lens_upto(reader, reader.term_list().len() as int),
{
    let mut lens: HashMap<u32, u32> = HashMap::new();
    let terms = reader.terms();
    let mut i: usize = 0;
    while i < terms.len()
        invariant
            i <= terms@.len(),
            reader.readable(),
            token_views(terms@) == reader.term_list(),
            lens@ == doc_lens_upto(reader, i as int),
        decreases terms@.len() - i,
    {
        assert(token_views(terms@)[i as int] == terms@[i as int]@);
        let list = reader.postings(terms[i].as_slice());
        let ghost start = lens@;
        let mut k: usize = 0;
        while k < list.len()
            invariant
                k <= list@.len(),
                lens@ == add_frequencies(start, list@, k as int),
            decreases list@.len() - k,
        {
            let doc: u32 = list[k].0;
            let tf: u32 = list[k].1;
            let old_len: u32 = match lens.get(&doc) {
                Some(v) => *v,
                None => 0,
            };
            let new_len: u32 = if tf > u32::MAX - old_len {
                u32::MAX
            } else {
                old_len + tf
            };
            lens.insert(doc, new_len);
            k = k + 1;
        }
        i = i + 1;
    }
    lens
}

} // verus!
