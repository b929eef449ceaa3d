//! Building new indexes.
//!
//! The builder collects tokenized documents, interns their terms, counts
//! term and document frequencies, and finally lays everything out as an
//! `Index`: dimensions are assigned by sorting the terms, every document
//! vector is rewritten through that order, and one posting per dimension
//! is assembled.
//!
//! The builder never does floating-point arithmetic: freshly inserted
//! documents carry the weight `1.0` as its bit pattern, and the caller's
//! floating-point layer supplies the final weight and length bits at
//! `build` time (computed, for example, from the frequency counters this
//! builder exposes).

pub mod term_store;

use vstd::prelude::*;

use crate::build::term_store::{lemma_freq_key_injective, spec_freq_key, u32_id_in, TermStoreBuilder};
use crate::index::Index;
use crate::mem_file::MemFile;
use crate::metadata::DefaultMetadata;
use crate::term_store::item::{record_df, record_text, term_record_wf};
use crate::term_store::TermIndexer;
use crate::traits::{Decodable, Encodable};
use crate::document::DocumentVector;
use crate::error::Error;
use crate::inv_index::{sort_dedup_u32s, u32_in};
use crate::vector::{Vector, WEIGHT_ONE};

verus! {

/// Whether `t` is the text of one of the given terms.
pub open spec fn text_in(ts: Seq<Vec<u8>>, t: Seq<u8>) -> bool {
    exists|j: int| 0 <= j < ts.len() && (#[trigger] ts[j])@ == t
}

/// How many of the given terms have text `t`.
pub open spec fn occurrences(ts: Seq<Vec<u8>>, t: Seq<u8>) -> int
    decreases ts.len(),
{
    if ts.len() == 0 {
        0
    } else {
        occurrences(ts.drop_last(), t) + if ts.last()@ == t {
            1int
        } else {
            0int
        }
    }
}

/// A prefix holds at most its length in occurrences.
proof fn lemma_occurrences_le_len(ts: Seq<Vec<u8>>, t: Seq<u8>)
    ensures
        0 <= occurrences(ts, t) <= ts.len(),
    decreases ts.len(),
{
    if ts.len() > 0 {
        lemma_occurrences_le_len(ts.drop_last(), t);
    }
}

/// How many of the given `(term, weight)` pairs have text `t`.
pub open spec fn occurrences_w(ts: Seq<(Vec<u8>, u32)>, t: Seq<u8>) -> int
    decreases ts.len(),
{
    if ts.len() == 0 {
        0
    } else {
        occurrences_w(ts.drop_last(), t) + if ts.last().0@ == t {
            1int
        } else {
            0int
        }
    }
}

/// Counting by text agrees between a pair list and its text list.
proof fn lemma_occurrences_agree(a: Seq<Vec<u8>>, b: Seq<(Vec<u8>, u32)>, t: Seq<u8>)
    requires
        a.len() == b.len(),
        forall|j: int| 0 <= j < a.len() ==> (#[trigger] a[j])@ == b[j].0@,
    ensures
        occurrences(a, t) == occurrences_w(b, t),
    decreases a.len(),
{
    if a.len() > 0 {
        assert forall|j: int|
            0 <= j < a.drop_last().len() implies (#[trigger] a.drop_last()[j])@ == b.drop_last()[
            j].0@ by {
            assert(a.drop_last()[j] == a[j]);
            assert(b.drop_last()[j] == b[j]);
        }
        lemma_occurrences_agree(a.drop_last(), b.drop_last(), t);
        assert(a.last()@ == b.last().0@) by {
            assert(a[a.len() - 1]@ == b[a.len() - 1].0@);
        }
    }
}

/// A positive count has a witness position.
proof fn lemma_occurrences_witness(ts: Seq<Vec<u8>>, t: Seq<u8>)
    requires
        occurrences(ts, t) > 0,
    ensures
        exists|j: int| 0 <= j < ts.len() && (#[trigger] ts[j])@ == t,
    decreases ts.len(),
{
    if ts.last()@ == t {
        assert(ts[ts.len() - 1]@ == t);
    } else {
        lemma_occurrences_witness(ts.drop_last(), t);
        let j = choose|j: int| 0 <= j < ts.drop_last().len() && (#[trigger] ts.drop_last()[j])@ == t;
        assert(ts[j]@ == t);
    }
}

/// Extending a prefix by one term raises exactly that text's count.
proof fn lemma_occurrences_take(ts: Seq<Vec<u8>>, k: int, t: Seq<u8>)
    requires
        0 <= k < ts.len(),
    ensures
        occurrences(ts.take(k + 1), t) == occurrences(ts.take(k), t) + if ts[k]@ == t {
            1int
        } else {
            0int
        },
{
    assert(ts.take(k + 1).drop_last() =~= ts.take(k));
    assert(ts.take(k + 1).last() == ts[k]);
}

/// Helper for building new indexes.
pub struct IndexBuilder<D> {
    pub vectors: Vec<DocumentVector<D>>,
    pub terms: TermStoreBuilder,
}

impl<D> IndexBuilder<D> {
    /// Well-formed: the term store is sound, every collected vector is
    /// sorted, its dimensions are valid insertion ids, and no
    /// doc-frequency counter exceeds the number of documents.
    pub open spec fn wf(&self) -> bool {
        &&& self.terms.wf()
        &&& forall|l: int|
            0 <= l < self.vectors@.len() ==> (#[trigger] self.vectors@[l]).spec_vec().wf()
        &&& forall|l: int, j: int|
            0 <= l < self.vectors@.len() && 0 <= j < self.vectors@[l].spec_vec().spec_pairs().len()
                ==> ((#[trigger] self.vectors@[l].spec_vec().spec_pairs()[j]).0 as int)
                < self.terms.spec_len()
        &&& forall|id: int|
            0 <= id < self.terms.spec_doc_freq().len() ==> (
            #[trigger] self.terms.spec_doc_freq()[id]) <= self.vectors@.len()
        &&& forall|id: u32, doc: u32|
            #![trigger spec_freq_key(id, doc)]
            doc as int >= self.vectors@.len() ==> !self.terms.spec_term_freq().contains_key(
                spec_freq_key(id, doc),
            )
    }

    /// Create a new builder.
    pub fn new() -> (r: IndexBuilder<D>)
        ensures
            r.wf(),
            r.vectors@.len() == 0,
            r.terms.spec_len() == 0,
    {
        IndexBuilder { vectors: Vec::new(), terms: TermStoreBuilder::new() }
    }

    /// Creates a new document vector over the given terms and inserts it,
    /// returning its id. Every dimension starts with weight `1.0` (as
    /// bits); term and document frequencies are counted.
    #[verifier::loop_isolation(false)]
    #[verifier::rlimit(100)]
    #[verifier::spinoff_prover]
    pub fn insert_new_vec(&mut self, doc: D, terms: &Vec<Vec<u8>>) -> (r: usize)
        requires
            old(self).wf(),
            old(self).vectors@.len() + 1 <= u32::MAX,
            old(self).terms.spec_len() + terms@.len() <= u32::MAX,
            forall|j: int|
                0 <= j < terms@.len() ==> crate::term_store::item::term_text_wf(
                    (#[trigger] terms@[j])@,
                ),
        ensures
            final(self).wf(),
            r == old(self).vectors@.len(),
            final(self).vectors@.len() == old(self).vectors@.len() + 1,
            old(self).terms.spec_len() <= final(self).terms.spec_len() <= old(self).terms.spec_len()
                + terms@.len(),
            forall|l: int|
                0 <= l < old(self).vectors@.len() ==> (#[trigger] final(self).vectors@[l]) == old(self).vectors@[l],
            final(self).vectors@.last().document == doc,
            final(self).vectors@.last().spec_vec().wf(),
            final(self).vectors@.last().spec_vec().spec_length() == 0,
            forall|i: int|
                0 <= i < final(self).vectors@.last().spec_vec().spec_pairs().len() ==> (
                #[trigger] final(self).vectors@.last().spec_vec().spec_pairs()[i]).1 == WEIGHT_ONE,
            // the new vector's dimensions are exactly the ids of the given terms
            forall|j: int|
                0 <= j < terms@.len() ==> final(self).terms.has_text((#[trigger] terms@[j])@),
            forall|d: u32|
                #![trigger final(self).vectors@.last().spec_vec().spec_has_dim(d)]
                final(self).vectors@.last().spec_vec().spec_has_dim(d) <==> exists|j: int|
                    0 <= j < terms@.len() && final(self).terms.id_of((#[trigger] terms@[j])@) == d,
            // the term set grows by exactly the given texts
            forall|t: Seq<u8>|
                #![trigger final(self).terms.has_text(t)]
                final(self).terms.has_text(t) <==> (old(self).terms.has_text(t) || text_in(
                    terms@,
                    t,
                )),
            forall|t: Seq<u8>|
                #![trigger old(self).terms.has_text(t)]
                old(self).terms.has_text(t) ==> final(self).terms.id_of(t) == old(self).terms.id_of(t),
            // each distinct given term counts one more document
            forall|j: int|
                0 <= j < terms@.len() ==> final(self).terms.spec_doc_freq()[final(self).terms.id_of((#[trigger] terms@[j])@) as int] == (if old(self).terms.has_text(
                    terms@[j]@,
                ) {
                    (old(self).terms.spec_doc_freq()[old(self).terms.id_of(terms@[j]@) as int]
                        + 1) as u32
                } else {
                    1u32
                }),
            forall|t: Seq<u8>|
                #![trigger old(self).terms.id_of(t)]
                old(self).terms.has_text(t) && !text_in(terms@, t) ==> final(self).terms.spec_doc_freq()[final(self).terms.id_of(t) as int] == old(self).terms.spec_doc_freq()[old(self).terms.id_of(t) as int],
            // each occurrence of a term is counted for this document
            forall|j: int|
                0 <= j < terms@.len() ==> final(self).terms.spec_term_freq().contains_key(
                    #[trigger] spec_freq_key(
                        final(self).terms.id_of(terms@[j]@),
                        old(self).vectors@.len() as u32,
                    ),
                ) && final(self).terms.spec_term_freq()[spec_freq_key(
                    final(self).terms.id_of(terms@[j]@),
                    old(self).vectors@.len() as u32,
                )] == occurrences(terms@, terms@[j]@),
            // other documents' counters are untouched
            forall|id: u32, doc: u32|
                #![trigger spec_freq_key(id, doc)]
                doc as int != old(self).vectors@.len() ==> final(self).terms.spec_term_freq().contains_key(spec_freq_key(id, doc)) == old(self).terms.spec_term_freq().contains_key(spec_freq_key(id, doc)) && (old(self).terms.spec_term_freq().contains_key(spec_freq_key(id, doc)) ==> final(self).terms.spec_term_freq()[spec_freq_key(id, doc)] == old(self).terms.spec_term_freq()[spec_freq_key(id, doc)]),
    {
        let doc_id = self.vectors.len() as u32;
        let n = terms.len();
        let mut ids: Vec<u32> = Vec::new();
        let mut k: usize = 0;
        while k < n
            invariant
                0 <= k <= n,
                self.vectors == old(self).vectors,
                self.terms.wf(),
                old(self).terms.spec_len() <= self.terms.spec_len() <= old(self).terms.spec_len()
                    + k,
                ids@.len() == k,
                forall|m: int|
                    0 <= m < k ==> self.terms.has_text((#[trigger] terms@[m])@) && ids@[m]
                        == self.terms.id_of(terms@[m]@) && (ids@[m] as int)
                        < self.terms.spec_len(),
                forall|t: Seq<u8>|
                    #![trigger self.terms.has_text(t)]
                    self.terms.has_text(t) <==> (old(self).terms.has_text(t) || text_in(
                        terms@.take(k as int),
                        t,
                    )),
                forall|t: Seq<u8>|
                    #![trigger old(self).terms.has_text(t)]
                    old(self).terms.has_text(t) ==> self.terms.id_of(t) == old(self).terms.id_of(
                        t,
                    ),
                forall|t: Seq<u8>|
                    #![trigger self.terms.id_of(t)]
                    !old(self).terms.has_text(t) && self.terms.has_text(t) ==> (self.terms.id_of(
                        t,
                    ) as int) >= old(self).terms.spec_len(),
                self.terms.spec_doc_freq().len() == self.terms.spec_len(),
                forall|id: int|
                    0 <= id < old(self).terms.spec_doc_freq().len() ==> (
                    #[trigger] self.terms.spec_doc_freq()[id]) == old(self).terms.spec_doc_freq()[id],
                forall|id: int|
                    old(self).terms.spec_doc_freq().len() <= id
                        < self.terms.spec_doc_freq().len() ==> (
                    #[trigger] self.terms.spec_doc_freq()[id]) == 0,
                forall|m: int|
                    0 <= m < k ==> self.terms.spec_term_freq().contains_key(
                        #[trigger] spec_freq_key(ids@[m], doc_id),
                    ) && self.terms.spec_term_freq()[spec_freq_key(ids@[m], doc_id)]
                        == occurrences(terms@.take(k as int), terms@[m]@),
                forall|id: u32|
                    !u32_id_in(ids@, id as int) ==> !self.terms.spec_term_freq().contains_key(
                        #[trigger] spec_freq_key(id, doc_id),
                    ),
                forall|id: u32, doc: u32|
                    #![trigger spec_freq_key(id, doc)]
                    doc != doc_id ==> self.terms.spec_term_freq().contains_key(
                        spec_freq_key(id, doc),
                    ) == old(self).terms.spec_term_freq().contains_key(spec_freq_key(id, doc))
                        && (old(self).terms.spec_term_freq().contains_key(spec_freq_key(id, doc))
                        ==> self.terms.spec_term_freq()[spec_freq_key(id, doc)] == old(self).terms.spec_term_freq()[spec_freq_key(id, doc)]),
            decreases n - k,
        {
            let ghost pre = self.terms;
            let id = self.terms.get_or_add_term(terms[k].as_slice());
            let ghost mid1 = self.terms;
            self.terms.update_term_freq(id, doc_id);
            let ghost prev_ids = ids@;
            ids.push(id);
            proof {
                assert(self.terms.spec_terms() == mid1.spec_terms());
                assert(self.terms.spec_doc_freq() == mid1.spec_doc_freq());
                assert forall|t: Seq<u8>| #![trigger self.terms.has_text(t)]
                    self.terms.has_text(t) <==> mid1.has_text(t) by {}
                assert forall|t: Seq<u8>| #![trigger self.terms.id_of(t)]
                    self.terms.id_of(t) == mid1.id_of(t) by {}
                assert forall|t: Seq<u8>|
                    #![trigger old(self).terms.has_text(t)]
                    old(self).terms.has_text(t) implies self.terms.id_of(t) == old(self).terms.id_of(t) by {
                    assert(pre.has_text(t));
                    assert(mid1.id_of(t) == pre.id_of(t));
                    assert(pre.id_of(t) == old(self).terms.id_of(t));
                }
                assert forall|t: Seq<u8>|
                    #![trigger self.terms.id_of(t)]
                    !old(self).terms.has_text(t) && self.terms.has_text(t) implies (
                self.terms.id_of(t) as int) >= old(self).terms.spec_len() by {
                    assert(mid1.has_text(t));
                    if pre.has_text(t) {
                        assert(mid1.id_of(t) == pre.id_of(t));
                        assert((pre.id_of(t) as int) >= old(self).terms.spec_len());
                    } else {
                        assert(t == terms@[k as int]@);
                        assert(mid1.id_of(t) == pre.spec_len());
                        assert(pre.spec_len() >= old(self).terms.spec_len());
                    }
                }
                assert forall|t: Seq<u8>|
                    #![trigger self.terms.has_text(t)]
                    self.terms.has_text(t) <==> (old(self).terms.has_text(t) || text_in(
                        terms@.take(k as int + 1),
                        t,
                    )) by {
                    assert(mid1.has_text(t) <==> (pre.has_text(t) || t == terms@[k as int]@));
                    assert(pre.has_text(t) <==> (old(self).terms.has_text(t) || text_in(
                        terms@.take(k as int),
                        t,
                    )));
                    assert(terms@.take(k as int + 1) =~= terms@.take(k as int).push(
                        terms@[k as int],
                    ));
                    if text_in(terms@.take(k as int + 1), t) {
                        let j = choose|j: int|
                            0 <= j < k + 1 && (#[trigger] terms@.take(k as int + 1)[j])@ == t;
                        if j < k as int {
                            assert(terms@.take(k as int)[j]@ == t);
                            assert(text_in(terms@.take(k as int), t));
                        }
                    }
                    if text_in(terms@.take(k as int), t) {
                        let j = choose|j: int|
                            0 <= j < k && (#[trigger] terms@.take(k as int)[j])@ == t;
                        assert(terms@.take(k as int + 1)[j]@ == t);
                        assert(text_in(terms@.take(k as int + 1), t));
                    }
                    if t == terms@[k as int]@ {
                        assert(terms@.take(k as int + 1)[k as int]@ == t);
                        assert(text_in(terms@.take(k as int + 1), t));
                    }
                }
                assert forall|m: int|
                    0 <= m < k + 1 implies self.terms.has_text((#[trigger] terms@[m])@) && ids@[m]
                        == self.terms.id_of(terms@[m]@) && (ids@[m] as int)
                        < self.terms.spec_len() by {
                    if m < k as int {
                        assert(pre.has_text(terms@[m]@));
                        assert(mid1.has_text(terms@[m]@));
                        assert(self.terms.has_text(terms@[m]@));
                        assert(mid1.id_of(terms@[m]@) == pre.id_of(terms@[m]@));
                        assert(self.terms.id_of(terms@[m]@) == pre.id_of(terms@[m]@));
                        assert(ids@[m] == pre.id_of(terms@[m]@));
                        crate::build::term_store::lemma_id_of_bound(mid1, terms@[m]@);
                        assert((ids@[m] as int) < self.terms.spec_len());
                    } else {
                        assert(ids@[m] == id);
                        assert(id == mid1.id_of(terms@[k as int]@));
                        assert(mid1.has_text(terms@[k as int]@));
                        assert(self.terms.has_text(terms@[k as int]@));
                        assert(self.terms.id_of(terms@[k as int]@) == mid1.id_of(
                            terms@[k as int]@,
                        ));
                        crate::build::term_store::lemma_id_of_bound(mid1, terms@[k as int]@);
                        assert((ids@[m] as int) < self.terms.spec_len());
                    }
                }
                assert forall|idd: int|
                    0 <= idd < old(self).terms.spec_doc_freq().len() implies (
                #[trigger] self.terms.spec_doc_freq()[idd]) == old(self).terms.spec_doc_freq()[idd] by {
                    assert(mid1.spec_doc_freq()[idd] == pre.spec_doc_freq()[idd]);
                    assert(pre.spec_doc_freq()[idd] == old(self).terms.spec_doc_freq()[idd]);
                }
                assert forall|idd: int|
                    old(self).terms.spec_doc_freq().len() <= idd
                        < self.terms.spec_doc_freq().len() implies (
                #[trigger] self.terms.spec_doc_freq()[idd]) == 0 by {
                    if idd < pre.spec_doc_freq().len() {
                        assert(mid1.spec_doc_freq()[idd] == pre.spec_doc_freq()[idd]);
                        assert(pre.spec_doc_freq()[idd] == 0);
                    } else {
                        assert(mid1.spec_doc_freq()[idd] == 0);
                    }
                }
                // the frequency counters: this occurrence is counted, and
                // nothing else moves
                let key = spec_freq_key(id, doc_id);
                let tf0 = pre.spec_term_freq();
                let tf1 = self.terms.spec_term_freq();
                assert(mid1.spec_term_freq() == tf0);
                assert(tf1 == tf0.insert(
                    key,
                    if tf0.contains_key(key) {
                        if tf0[key] == u32::MAX {
                            u32::MAX
                        } else {
                            (tf0[key] + 1) as u32
                        }
                    } else {
                        1u32
                    },
                ));
                assert(id == self.terms.id_of(terms@[k as int]@));
                lemma_occurrences_le_len(terms@.take(k as int), terms@[k as int]@);
                assert(tf1[key] == occurrences(terms@.take(k as int + 1), terms@[k as int]@)
                    && tf1.contains_key(key)) by {
                    lemma_occurrences_take(terms@, k as int, terms@[k as int]@);
                    if tf0.contains_key(key) {
                        assert(u32_id_in(ids@.take(k as int), id as int)) by {
                            if !u32_id_in(ids@.take(k as int), id as int) {
                                assert forall|mm: int|
                                    0 <= mm < k implies (#[trigger] ids@[mm]) != id by {
                                    if ids@[mm] == id {
                                        assert(ids@.take(k as int)[mm] == id);
                                        assert(u32_id_in(ids@.take(k as int), id as int));
                                    }
                                }
                                assert(!u32_id_in(ids@.take(k as int), id as int));
                            }
                            if !tf0.contains_key(key) {
                            }
                        }
                        let m0 = choose|m0: int|
                            0 <= m0 < k && (#[trigger] ids@.take(k as int)[m0]) == id;
                        assert(ids@[m0] == id);
                        assert(self.terms.id_of(terms@[m0 as int]@) == id);
                        crate::build::term_store::lemma_id_injective(
                            &self.terms,
                            terms@[m0 as int]@,
                            terms@[k as int]@,
                        );
                        assert(terms@[m0 as int]@ == terms@[k as int]@);
                        assert(tf0[key] == occurrences(terms@.take(k as int), terms@[m0]@));
                        assert(tf0[key] < u32::MAX);
                    } else {
                        assert(occurrences(terms@.take(k as int), terms@[k as int]@) == 0) by {
                            if occurrences(terms@.take(k as int), terms@[k as int]@) > 0 {
                                lemma_occurrences_witness(
                                    terms@.take(k as int),
                                    terms@[k as int]@,
                                );
                                let j0 = choose|j0: int|
                                    0 <= j0 < k && (#[trigger] terms@.take(k as int)[j0])@
                                        == terms@[k as int]@;
                                assert(terms@[j0]@ == terms@[k as int]@);
                                assert(ids@[j0] == self.terms.id_of(terms@[j0]@));
                                assert(ids@[j0] == id);
                                assert(ids@.take(k as int)[j0] == id);
                                assert(u32_id_in(ids@.take(k as int), id as int));
                                assert(tf0.contains_key(spec_freq_key(ids@[j0], doc_id)));
                            }
                        }
                    }
                }
                assert forall|m: int|
                    0 <= m < k + 1 implies self.terms.spec_term_freq().contains_key(
                    #[trigger] spec_freq_key(ids@[m], doc_id),
                ) && self.terms.spec_term_freq()[spec_freq_key(ids@[m], doc_id)] == occurrences(
                    terms@.take(k as int + 1),
                    terms@[m]@,
                ) by {
                    if m < k as int {
                        if ids@[m] == id {
                            crate::build::term_store::lemma_id_injective(
                                &self.terms,
                                terms@[m]@,
                                terms@[k as int]@,
                            );
                            assert(terms@[m]@ == terms@[k as int]@);
                        } else {
                            if spec_freq_key(ids@[m], doc_id) == key {
                                lemma_freq_key_injective(ids@[m], doc_id, id, doc_id);
                            }
                            assert(tf1[spec_freq_key(ids@[m], doc_id)] == tf0[spec_freq_key(
                                ids@[m],
                                doc_id,
                            )]);
                            lemma_occurrences_take(terms@, k as int, terms@[m]@);
                            assert(terms@[k as int]@ != terms@[m]@) by {
                                if terms@[k as int]@ == terms@[m]@ {
                                    assert(ids@[m] == self.terms.id_of(terms@[m]@));
                                }
                            }
                        }
                    }
                }
                assert forall|id2: u32|
                    !u32_id_in(ids@, id2 as int) implies !self.terms.spec_term_freq().contains_key(
                    #[trigger] spec_freq_key(id2, doc_id),
                ) by {
                    assert(ids@[k as int] == id);
                    assert(id2 != id);
                    if spec_freq_key(id2, doc_id) == key {
                        lemma_freq_key_injective(id2, doc_id, id, doc_id);
                    }
                    assert(!u32_id_in(prev_ids, id2 as int)) by {
                        if u32_id_in(prev_ids, id2 as int) {
                            let mm = choose|mm: int|
                                0 <= mm < prev_ids.len() && (#[trigger] prev_ids[mm]) == id2;
                            assert(ids@[mm] == id2);
                            assert(u32_id_in(ids@, id2 as int));
                        }
                    }
                }
                assert forall|id2: u32, doc: u32|
                    #![trigger spec_freq_key(id2, doc)]
                    doc != doc_id implies self.terms.spec_term_freq().contains_key(
                    spec_freq_key(id2, doc),
                ) == old(self).terms.spec_term_freq().contains_key(spec_freq_key(id2, doc)) && (
                old(self).terms.spec_term_freq().contains_key(spec_freq_key(id2, doc))
                    ==> self.terms.spec_term_freq()[spec_freq_key(id2, doc)] == old(self).terms.spec_term_freq()[spec_freq_key(id2, doc)]) by {
                    if spec_freq_key(id2, doc) == key {
                        lemma_freq_key_injective(id2, doc, id, doc_id);
                    }
                }
            }
            k += 1;
        }
        proof {
            assert(terms@.take(n as int) =~= terms@);
        }
        // one document counted per distinct term
        let distinct = sort_dedup_u32s(&ids);
        proof {
            assert forall|m: int|
                0 <= m < distinct@.len() implies ((#[trigger] distinct@[m]) as int)
                    < self.terms.spec_len() && self.terms.spec_doc_freq()[distinct@[m] as int]
                    < u32::MAX by {
                assert(u32_in(distinct@, distinct@[m]));
                assert(u32_in(ids@, distinct@[m]));
                let mm = choose|mm: int| 0 <= mm < ids@.len() && ids@[mm] == distinct@[m];
                assert(ids@[mm] == self.terms.id_of((terms@[mm])@));
                assert((ids@[mm] as int) < self.terms.spec_len());
                if (distinct@[m] as int) < old(self).terms.spec_doc_freq().len() {
                    assert(self.terms.spec_doc_freq()[distinct@[m] as int] == old(self).terms.spec_doc_freq()[distinct@[m] as int]);
                    assert(old(self).terms.spec_doc_freq()[distinct@[m] as int] <= old(self).vectors@.len());
                } else {
                    assert(self.terms.spec_doc_freq()[distinct@[m] as int] == 0);
                }
            }
        }
        let ghost mid_terms = self.terms;
        self.terms.update_doc_freq(&distinct);
        // build the new vector over the distinct ids, weight 1.0
        let np = distinct.len();
        let mut pairs: Vec<(u32, u32)> = Vec::new();
        let mut p: usize = 0;
        while p < np
            invariant
                0 <= p <= np,
                np == distinct@.len(),
                pairs@.len() == p,
                forall|m: int|
                    0 <= m < p ==> (#[trigger] pairs@[m]) == (distinct@[m], WEIGHT_ONE),
            decreases np - p,
        {
            pairs.push((distinct[p], WEIGHT_ONE));
            p += 1;
        }
        proof {
            assert(crate::vector::pairs_sorted(pairs@)) by {
                assert forall|a: int, b: int|
                    #![trigger pairs@[a], pairs@[b]]
                    0 <= a < b < pairs@.len() implies pairs@[a].0 < pairs@[b].0 by {
                    assert(distinct@[a] < distinct@[b]);
                }
            }
        }
        let vec = Vector::new_raw(pairs, 0);
        let dv = DocumentVector::new(doc, vec);
        let ghost prev_vectors = self.vectors@;
        self.vectors.push(dv);
        proof {
            let fs = *self;
            let os = *old(self);
            assert(fs.vectors@.last() == dv);
            assert forall|d: u32|
                #![trigger dv.spec_vec().spec_has_dim(d)]
                dv.spec_vec().spec_has_dim(d) <==> (exists|j: int|
                    0 <= j < terms@.len() && fs.terms.id_of((#[trigger] terms@[j])@) == d) by {
                if dv.spec_vec().spec_has_dim(d) {
                    let i = choose|i: int|
                        0 <= i < vec.spec_pairs().len() && (#[trigger] vec.spec_pairs()[i]).0 == d;
                    assert(vec.spec_pairs()[i] == (distinct@[i], WEIGHT_ONE));
                    assert(u32_in(distinct@, d));
                    assert(u32_in(ids@, d));
                    let m = choose|m: int| 0 <= m < ids@.len() && ids@[m] == d;
                    assert(fs.terms.id_of(terms@[m]@) == d);
                }
                if exists|j: int|
                    0 <= j < terms@.len() && fs.terms.id_of((#[trigger] terms@[j])@) == d {
                    let j = choose|j: int|
                        0 <= j < terms@.len() && fs.terms.id_of((#[trigger] terms@[j])@) == d;
                    assert(ids@[j] == mid_terms.id_of(terms@[j]@));
                    assert(fs.terms.id_of(terms@[j]@) == mid_terms.id_of(terms@[j]@)) by {
                        assert(fs.terms.spec_terms() == mid_terms.spec_terms());
                    }
                    assert(u32_in(ids@, d));
                    assert(u32_in(distinct@, d));
                    let m = choose|m: int| 0 <= m < distinct@.len() && distinct@[m] == d;
                    assert(vec.spec_pairs()[m].0 == d);
                }
            }
            // doc-frequency bookkeeping
            assert forall|j: int|
                0 <= j < terms@.len() implies fs.terms.spec_doc_freq()[fs.terms.id_of(
                (#[trigger] terms@[j])@,
            ) as int] == (if os.terms.has_text(terms@[j]@) {
                (os.terms.spec_doc_freq()[os.terms.id_of(terms@[j]@) as int] + 1) as u32
            } else {
                1u32
            }) by {
                let t = terms@[j]@;
                let id = mid_terms.id_of(t);
                assert(fs.terms.id_of(t) == id) by {
                    assert(fs.terms.spec_terms() == mid_terms.spec_terms());
                }
                assert(ids@[j] == id);
                assert(u32_in(ids@, id));
                assert(u32_in(distinct@, id));
                assert(u32_id_in(distinct@, id as int));
                assert(fs.terms.spec_doc_freq()[id as int] == (mid_terms.spec_doc_freq()[id as int]
                    + 1) as u32);
                if os.terms.has_text(t) {
                    assert(mid_terms.id_of(t) == os.terms.id_of(t));
                    crate::build::term_store::lemma_id_of_bound(os.terms, t);
                    assert(mid_terms.spec_doc_freq()[id as int] == os.terms.spec_doc_freq()[id as int]);
                } else {
                    assert(mid_terms.has_text(t));
                    assert((mid_terms.id_of(t) as int) >= os.terms.spec_len());
                    assert((id as int) >= os.terms.spec_len());
                    assert(mid_terms.spec_doc_freq()[id as int] == 0);
                }
            }
            assert forall|t: Seq<u8>|
                #![trigger os.terms.id_of(t)]
                os.terms.has_text(t) && !text_in(terms@, t) implies fs.terms.spec_doc_freq()[
                fs.terms.id_of(t) as int] == os.terms.spec_doc_freq()[os.terms.id_of(t) as int] by {
                let id = os.terms.id_of(t);
                assert(mid_terms.id_of(t) == id);
                assert(fs.terms.id_of(t) == id) by {
                    assert(fs.terms.spec_terms() == mid_terms.spec_terms());
                }
                crate::build::term_store::lemma_id_of_bound(os.terms, t);
                assert(!u32_id_in(distinct@, id as int)) by {
                    if u32_id_in(distinct@, id as int) {
                        let m = choose|m: int|
                            0 <= m < distinct@.len() && (#[trigger] distinct@[m]) == id;
                        assert(u32_in(distinct@, id));
                        assert(u32_in(ids@, id));
                        let mm = choose|mm: int| 0 <= mm < ids@.len() && ids@[mm] == id;
                        assert(mid_terms.id_of(terms@[mm]@) == id);
                        // two texts with the same id are the same text
                        crate::build::term_store::lemma_id_injective(
                            &mid_terms,
                            terms@[mm]@,
                            t,
                        );
                        assert(text_in(terms@, t));
                    }
                }
                assert(fs.terms.spec_doc_freq()[id as int] == mid_terms.spec_doc_freq()[id as int]);
            }
            // builder well-formedness
            assert(fs.wf()) by {
                assert forall|l: int, j2: int|
                    0 <= l < fs.vectors@.len() && 0 <= j2
                        < fs.vectors@[l].spec_vec().spec_pairs().len() implies ((
                #[trigger] fs.vectors@[l].spec_vec().spec_pairs()[j2]).0 as int)
                    < fs.terms.spec_len() by {
                    if l < prev_vectors.len() {
                        assert(fs.vectors@[l] == os.vectors@[l]);
                        assert((os.vectors@[l].spec_vec().spec_pairs()[j2].0 as int)
                            < os.terms.spec_len());
                        assert(os.terms.spec_len() <= fs.terms.spec_len());
                    } else {
                        assert(fs.vectors@[l] == dv);
                        assert(vec.spec_pairs()[j2] == (distinct@[j2], WEIGHT_ONE));
                        assert(u32_in(distinct@, distinct@[j2]));
                        assert(u32_in(ids@, distinct@[j2]));
                        let mm = choose|mm: int|
                            0 <= mm < ids@.len() && ids@[mm] == distinct@[j2];
                    }
                }
                assert forall|id: int|
                    0 <= id < fs.terms.spec_doc_freq().len() implies (
                #[trigger] fs.terms.spec_doc_freq()[id]) <= fs.vectors@.len() by {
                    if u32_id_in(distinct@, id) {
                        assert(fs.terms.spec_doc_freq()[id] == (mid_terms.spec_doc_freq()[id]
                            + 1) as u32);
                        if id < os.terms.spec_doc_freq().len() {
                            assert(mid_terms.spec_doc_freq()[id] == os.terms.spec_doc_freq()[id]);
                        } else {
                            assert(mid_terms.spec_doc_freq()[id] == 0);
                        }
                    } else {
                        assert(fs.terms.spec_doc_freq()[id] == mid_terms.spec_doc_freq()[id]);
                        if id < os.terms.spec_doc_freq().len() {
                            assert(mid_terms.spec_doc_freq()[id] == os.terms.spec_doc_freq()[id]);
                        } else {
                            assert(mid_terms.spec_doc_freq()[id] == 0);
                        }
                    }
                }
            }
            assert(fs.terms.spec_terms() == mid_terms.spec_terms());
            assert forall|t: Seq<u8>|
                #![trigger fs.terms.has_text(t)]
                fs.terms.has_text(t) <==> (os.terms.has_text(t) || text_in(terms@, t)) by {
                assert(fs.terms.has_text(t) <==> mid_terms.has_text(t));
                assert(mid_terms.has_text(t) <==> (os.terms.has_text(t) || text_in(
                    terms@.take(terms@.len() as int),
                    t,
                )));
                assert(terms@.take(terms@.len() as int) =~= terms@);
            }
            assert forall|j: int|
                0 <= j < terms@.len() implies fs.terms.has_text((#[trigger] terms@[j])@) by {
                assert(mid_terms.has_text(terms@[j]@));
            }
            assert forall|t: Seq<u8>|
                #![trigger os.terms.has_text(t)]
                os.terms.has_text(t) implies fs.terms.id_of(t) == os.terms.id_of(t) by {
                assert(mid_terms.id_of(t) == os.terms.id_of(t));
                assert(fs.terms.id_of(t) == mid_terms.id_of(t));
            }
        }
        doc_id as usize
    }
}

impl<D> IndexBuilder<D> {
    /// Creates a new document vector over the given `(term, weight bits)`
    /// pairs and inserts it, returning its id. Dimensions keep, for each
    /// term, the first weight given with it; term and document frequencies
    /// are counted as for `insert_new_vec`.
    #[verifier::loop_isolation(false)]
    #[verifier::rlimit(100)]
    #[verifier::spinoff_prover]
    pub fn insert_new_weighted_vec(&mut self, doc: D, terms: &Vec<(Vec<u8>, u32)>) -> (r: usize)
        requires
            old(self).wf(),
            old(self).vectors@.len() + 1 <= u32::MAX,
            old(self).terms.spec_len() + terms@.len() <= u32::MAX,
            forall|j: int|
                0 <= j < terms@.len() ==> crate::term_store::item::term_text_wf(
                    (#[trigger] terms@[j]).0@,
                ),
        ensures
            final(self).wf(),
            r == old(self).vectors@.len(),
            final(self).vectors@.len() == old(self).vectors@.len() + 1,
            old(self).terms.spec_len() <= final(self).terms.spec_len() <= old(self).terms.spec_len()
                + terms@.len(),
            forall|l: int|
                0 <= l < old(self).vectors@.len() ==> (#[trigger] final(self).vectors@[l]) == old(self).vectors@[l],
            final(self).vectors@.last().document == doc,
            final(self).vectors@.last().spec_vec().wf(),
            final(self).vectors@.last().spec_vec().spec_length() == 0,
            forall|j: int|
                0 <= j < terms@.len() ==> final(self).terms.has_text((#[trigger] terms@[j]).0@),
            forall|d: u32|
                #![trigger final(self).vectors@.last().spec_vec().spec_has_dim(d)]
                final(self).vectors@.last().spec_vec().spec_has_dim(d) <==> exists|j: int|
                    0 <= j < terms@.len() && final(self).terms.id_of((#[trigger] terms@[j]).0@)
                        == d,
            // each kept pair carries the first weight supplied for its term
            forall|i: int|
                0 <= i < final(self).vectors@.last().spec_vec().spec_pairs().len() ==> (
                #[trigger] final(self).vectors@.last().spec_vec().spec_pairs()[i]).1
                    == crate::vector::first_weight(
                    Seq::new(
                        terms@.len(),
                        |j: int| (final(self).terms.id_of(terms@[j].0@), terms@[j].1),
                    ),
                    final(self).vectors@.last().spec_vec().spec_pairs()[i].0,
                ),
            // each distinct listed term counts one more document
            forall|j: int|
                0 <= j < terms@.len() ==> final(self).terms.spec_doc_freq()[final(self).terms.id_of((#[trigger] terms@[j]).0@) as int] == (if old(self).terms.has_text(
                    terms@[j].0@,
                ) {
                    (old(self).terms.spec_doc_freq()[old(self).terms.id_of(terms@[j].0@) as int]
                        + 1) as u32
                } else {
                    1u32
                }),
            forall|t: Seq<u8>|
                #![trigger old(self).terms.id_of(t)]
                old(self).terms.has_text(t) && !(exists|j: int|
                    0 <= j < terms@.len() && (#[trigger] terms@[j]).0@ == t) ==> final(self).terms.spec_doc_freq()[final(self).terms.id_of(t) as int] == old(self).terms.spec_doc_freq()[old(self).terms.id_of(t) as int],
            // each occurrence of a term is counted for this document
            forall|j: int|
                0 <= j < terms@.len() ==> final(self).terms.spec_term_freq().contains_key(
                    #[trigger] spec_freq_key(
                        final(self).terms.id_of(terms@[j].0@),
                        old(self).vectors@.len() as u32,
                    ),
                ) && final(self).terms.spec_term_freq()[spec_freq_key(
                    final(self).terms.id_of(terms@[j].0@),
                    old(self).vectors@.len() as u32,
                )] == occurrences_w(terms@, terms@[j].0@),
    {
        let mut texts: Vec<Vec<u8>> = Vec::new();
        let n = terms.len();
        let mut j: usize = 0;
        while j < n
            invariant
                0 <= j <= n,
                self == old(self),
                texts@.len() == j,
                forall|m: int| 0 <= m < j ==> (#[trigger] texts@[m])@ == terms@[m].0@,
            decreases n - j,
        {
            texts.push(vstd::slice::slice_to_vec(terms[j].0.as_slice()));
            j += 1;
        }
        let doc_id = self.insert_new_vec(doc, &texts);
        let ghost mid = *self;
        // replace the unit weights with the given ones, keeping the first
        // weight given with each term
        let mut pairs: Vec<(u32, u32)> = Vec::new();
        let mut k: usize = 0;
        while k < n
            invariant
                0 <= k <= n,
                *self == mid,
                n == terms@.len(),
                texts@.len() == n,
                forall|m: int| 0 <= m < n ==> (#[trigger] texts@[m])@ == terms@[m].0@,
                forall|m: int| 0 <= m < n ==> mid.terms.has_text((#[trigger] texts@[m])@),
                mid.terms.wf(),
                pairs@.len() == k,
                forall|m: int|
                    0 <= m < k ==> (#[trigger] pairs@[m]) == (
                        mid.terms.id_of(terms@[m].0@),
                        terms@[m].1,
                    ) && (pairs@[m].0 as int) < mid.terms.spec_len(),
            decreases n - k,
        {
            let id = match self.terms.get_term_id(terms[k].0.as_slice()) {
                Some(id) => id,
                None => {
                    proof {
                        assert(mid.terms.has_text(texts@[k as int]@));
                        assert(false);
                    }
                    return doc_id;
                },
            };
            proof {
                crate::build::term_store::lemma_id_of_bound(mid.terms, terms@[k as int].0@);
            }
            pairs.push((id, terms[k].1));
            k += 1;
        }
        let ghost pseq = pairs@;
        let v = Vector::create_new_raw(pairs);
        let ghost before = self.vectors@;
        let mut dv = self.vectors.remove(doc_id);
        let ghost removed = self.vectors@;
        dv.set_vec(v);
        self.vectors.insert(doc_id, dv);
        proof {
            removed.insert_ensures(doc_id as int, dv);
            assert(self.vectors@[doc_id as int] == dv);
            assert forall|l: int|
                0 <= l < before.len() && l != doc_id as int implies self.vectors@[l] == before[
                l] by {
                if l < doc_id as int {
                    assert(self.vectors@[l] == removed[l]);
                    assert(removed[l] == before[l]);
                } else {
                    assert(self.vectors@[l] == removed[l - 1]);
                    assert(removed[l - 1] == before[l]);
                }
            }
            assert(before[doc_id as int] == mid.vectors@[doc_id as int]);
            assert(dv.document == mid.vectors@[doc_id as int].document);
            assert(self.vectors@.last() == dv);
            assert(self.terms == mid.terms);
            assert forall|j2: int|
                0 <= j2 < terms@.len() implies self.terms.has_text(
                (#[trigger] terms@[j2]).0@,
            ) by {
                assert(mid.terms.has_text(texts@[j2]@));
                assert(texts@[j2]@ == terms@[j2].0@);
            }
            assert forall|j2: int|
                0 <= j2 < terms@.len() implies self.terms.spec_doc_freq()[self.terms.id_of(
                (#[trigger] terms@[j2]).0@,
            ) as int] == (if old(self).terms.has_text(terms@[j2].0@) {
                (old(self).terms.spec_doc_freq()[old(self).terms.id_of(terms@[j2].0@) as int]
                    + 1) as u32
            } else {
                1u32
            }) by {
                assert(texts@[j2]@ == terms@[j2].0@);
                assert(mid.terms.spec_doc_freq()[mid.terms.id_of(texts@[j2]@) as int] == (if old(self).terms.has_text(texts@[j2]@) {
                    (old(self).terms.spec_doc_freq()[old(self).terms.id_of(texts@[j2]@) as int]
                        + 1) as u32
                } else {
                    1u32
                }));
            }
            assert forall|t: Seq<u8>|
                #![trigger old(self).terms.id_of(t)]
                old(self).terms.has_text(t) && !(exists|j2: int|
                    0 <= j2 < terms@.len() && (#[trigger] terms@[j2]).0@ == t) implies self.terms.spec_doc_freq()[
                self.terms.id_of(t) as int] == old(self).terms.spec_doc_freq()[old(self).terms.id_of(t) as int] by {
                assert(!text_in(texts@, t)) by {
                    if text_in(texts@, t) {
                        let j2 = choose|j2: int|
                            0 <= j2 < texts@.len() && (#[trigger] texts@[j2])@ == t;
                        assert(terms@[j2].0@ == t);
                    }
                }
            }
            assert forall|j2: int|
                0 <= j2 < terms@.len() implies self.terms.spec_term_freq().contains_key(
                #[trigger] spec_freq_key(
                    self.terms.id_of(terms@[j2].0@),
                    old(self).vectors@.len() as u32,
                ),
            ) && self.terms.spec_term_freq()[spec_freq_key(
                self.terms.id_of(terms@[j2].0@),
                old(self).vectors@.len() as u32,
            )] == occurrences_w(terms@, terms@[j2].0@) by {
                assert(texts@[j2]@ == terms@[j2].0@);
                lemma_occurrences_agree(texts@, terms@, terms@[j2].0@);
                assert(mid.terms.spec_term_freq().contains_key(spec_freq_key(
                    mid.terms.id_of(texts@[j2]@),
                    old(self).vectors@.len() as u32,
                )));
                assert(mid.terms.spec_term_freq()[spec_freq_key(
                    mid.terms.id_of(texts@[j2]@),
                    old(self).vectors@.len() as u32,
                )] == occurrences(texts@, texts@[j2]@));
            }
            assert forall|d: u32|
                #![trigger dv.spec_vec().spec_has_dim(d)]
                dv.spec_vec().spec_has_dim(d) <==> (exists|j2: int|
                    0 <= j2 < terms@.len() && mid.terms.id_of((#[trigger] terms@[j2]).0@)
                        == d) by {
                if dv.spec_vec().spec_has_dim(d) {
                    assert(crate::vector::seq_has_dim(pseq, d));
                    let m = choose|m: int| 0 <= m < pseq.len() && (#[trigger] pseq[m]).0 == d;
                    assert(mid.terms.id_of(terms@[m].0@) == d);
                }
                if exists|j2: int|
                    0 <= j2 < terms@.len() && mid.terms.id_of((#[trigger] terms@[j2]).0@) == d {
                    let j2 = choose|j2: int|
                        0 <= j2 < terms@.len() && mid.terms.id_of((#[trigger] terms@[j2]).0@)
                            == d;
                    assert(pseq[j2].0 == d);
                    assert(crate::vector::seq_has_dim(pseq, d));
                }
            }
            let mapped = Seq::new(
                terms@.len(),
                |j2: int| (self.terms.id_of(terms@[j2].0@), terms@[j2].1),
            );
            assert(pseq =~= mapped);
            assert forall|i: int|
                0 <= i < dv.spec_vec().spec_pairs().len() implies (
            #[trigger] dv.spec_vec().spec_pairs()[i]).1 == crate::vector::first_weight(
                mapped,
                dv.spec_vec().spec_pairs()[i].0,
            ) by {
                assert(v.spec_pairs()[i].1 == crate::vector::first_weight(
                    pseq,
                    v.spec_pairs()[i].0,
                ));
            }
            assert(self.wf()) by {
                assert forall|l: int, j2: int|
                    0 <= l < self.vectors@.len() && 0 <= j2
                        < self.vectors@[l].spec_vec().spec_pairs().len() implies ((
                #[trigger] self.vectors@[l].spec_vec().spec_pairs()[j2]).0 as int)
                    < self.terms.spec_len() by {
                    if l != doc_id as int {
                        assert(self.vectors@[l] == mid.vectors@[l]);
                        assert((mid.vectors@[l].spec_vec().spec_pairs()[j2].0 as int)
                            < mid.terms.spec_len());
                    } else {
                        let d = dv.spec_vec().spec_pairs()[j2].0;
                        assert(dv.spec_vec().spec_has_dim(d)) by {
                            assert(dv.spec_vec().spec_pairs()[j2].0 == d);
                        }
                        assert(crate::vector::seq_has_dim(pseq, d));
                        let m = choose|m: int|
                            0 <= m < pseq.len() && (#[trigger] pseq[m]).0 == d;
                        assert((pseq[m].0 as int) < mid.terms.spec_len());
                    }
                }
            }
        }
        doc_id
    }
}

impl<D: Encodable + Decodable> IndexBuilder<D> {
    /// Finalizes the build: rewrites every vector through the sorted term
    /// order (applying the supplied weight and length bits), emits the term
    /// dictionary in text order with its doc frequencies, assembles one
    /// posting per dimension, and wraps everything as an `Index` whose
    /// document count is the number of inserted vectors.
    #[verifier::loop_isolation(false)]
    #[verifier::rlimit(100)]
    #[verifier::spinoff_prover]
    pub fn build(
        self,
        metadata: DefaultMetadata,
        weights: Option<&Vec<Vec<u32>>>,
        lengths: &Vec<u32>,
    ) -> (r: Result<Index<D>, Error>)
        requires
            self.wf(),
            lengths@.len() == self.vectors@.len(),
            weights matches Some(w) ==> w@.len() == self.vectors@.len() && forall|l: int|
                0 <= l < self.vectors@.len() ==> (#[trigger] w@[l])@.len()
                    == self.vectors@[l].spec_vec().spec_pairs().len(),
        ensures
            self.vectors@.len() == 0 && self.terms.spec_len() == 0 ==> r is Ok,
            r matches Ok(ix) ==> {
                &&& ix.wf()
                &&& ix.spec_indexer().sorted_mode()
                &&& ix.spec_metadata().document_count == self.vectors@.len()
                &&& forall|l: int|
                    0 <= l < self.vectors@.len() ==> (#[trigger] self.vectors@[l]).document.enc_ok()
                &&& ix.spec_metadata().version == metadata.version
                &&& ix.spec_indexer().spec_len() == self.terms.spec_len()
                &&& ix.spec_vector_store().spec_len() == self.vectors@.len()
                &&& forall|k: int|
                    0 <= k < self.terms.spec_len() ==> ix.spec_indexer().term_at(k) == (
                    #[trigger] self.terms.spec_terms()[k]).0@ && ix.spec_indexer().df_at(k)
                        == self.terms.spec_doc_freq()[self.terms.spec_terms()[k].1 as int]
                &&& exists|adj: Seq<DocumentVector<D>>|
                    {
                        &&& #[trigger] adj.len() == self.vectors@.len()
                        &&& (forall|l: int|
                            #![trigger adj[l]]
                            0 <= l < adj.len() ==> crate::build::term_store::adjusted_vec(
                                &self.terms,
                                self.vectors@[l],
                                adj[l],
                                match weights {
                                    Some(w) => Some(w@[l]@),
                                    None => None,
                                },
                                lengths@[l],
                            ))
                        &&& (forall|i: int|
                            0 <= i < adj.len() ==> (
                            #[trigger] ix.spec_vector_store().spec_store().record(i))
                                == crate::document::vec_blob(adj[i].spec_vec())
                                + adj[i].document.enc())
                        &&& (forall|i: int, d: u32|
                            #![trigger crate::vector::seq_has_dim(adj[i].spec_vec().spec_pairs(), d)]
                            0 <= i < adj.len() ==> (crate::inv_index::u32_in(
                                ix.spec_vector_store().spec_map().posting(d as int),
                                i as u32,
                            ) <==> crate::vector::seq_has_dim(
                                adj[i].spec_vec().spec_pairs(),
                                d,
                            )))
                    }
            },
    {
        let mut vectors = self.vectors;
        self.terms.adjust_vecs(&mut vectors, weights, lengths);
        // emit the dictionary in text order, with doc frequencies
        let entries = self.terms.terms();
        let dfs = self.terms.doc_frequencies();
        let nt = entries.len();
        let mut tfile = MemFile::with_capacity(nt);
        let mut k: usize = 0;
        while k < nt
            invariant
                0 <= k <= nt,
                nt == self.terms.spec_len(),
                entries@ == self.terms.spec_terms(),
                dfs@ == self.terms.spec_doc_freq(),
                self.terms.wf(),
                tfile.wf(),
                tfile.spec_len() == k,
                forall|k2: int|
                    0 <= k2 < k ==> term_record_wf(#[trigger] tfile.record(k2)) && record_text(
                        tfile.record(k2),
                    ) == self.terms.spec_terms()[k2].0@ && record_df(tfile.record(k2))
                        == self.terms.spec_doc_freq()[self.terms.spec_terms()[k2].1 as int],
            decreases nt - k,
        {
            let id = entries[k].1;
            proof {
                assert(self.terms.spec_terms()[k as int].1 < self.terms.spec_len());
            }
            let df = dfs[id as usize];
            let mut enc: Vec<u8> = Vec::new();
            crate::traits::push_u32_le(&mut enc, df);
            let mut text = vstd::slice::slice_to_vec(entries[k].0.as_slice());
            enc.append(&mut text);
            proof {
                assert(enc@ =~= crate::traits::spec_u32_to_le_bytes(df)
                    + self.terms.spec_terms()[k as int].0@);
                vstd::bytes::lemma_auto_spec_u32_to_from_le_bytes();
                assert(enc@.subrange(0, 4) =~= crate::traits::spec_u32_to_le_bytes(df));
                assert(enc@.skip(4) =~= self.terms.spec_terms()[k as int].0@);
            }
            if enc.len() > u32::MAX as usize || tfile.byte_size() > u32::MAX as usize
                - enc.len() {
                return Err(Error::Decode);
            }
            let ghost old_tfile = tfile;
            tfile.insert(enc.as_slice());
            proof {
                assert(tfile.records() == old_tfile.records().push(enc@));
                assert(tfile.records()[k as int] == enc@);
                assert(tfile.record(k as int) == enc@);
                assert forall|k2: int| 0 <= k2 < k implies tfile.record(k2) == old_tfile.record(
                    k2,
                ) by {
                    assert(tfile.records()[k2] == old_tfile.records()[k2]);
                    assert(old_tfile.records()[k2] == old_tfile.record(k2));
                    assert(tfile.records()[k2] == tfile.record(k2));
                }
            }
            k += 1;
        }
        proof {
            assert forall|a: int, b: int|
                0 <= a < b < tfile.spec_len() implies crate::lex::lex_lt(
                record_text(#[trigger] tfile.record(a)),
                record_text(#[trigger] tfile.record(b)),
            ) by {
                assert(crate::lex::lex_lt(
                    self.terms.spec_terms()[a].0@,
                    self.terms.spec_terms()[b].0@,
                ));
            }
        }
        let mut indexer = TermIndexer::from_sorted(tfile, vectors.len());
        // assemble the store and the postings
        let vstore = match crate::vector_store::build(&vectors) {
            Ok(v) => v,
            Err(e) => {
                return Err(e);
            },
        };
        let mut md = metadata;
        md.set_document_count(vectors.len());
        let ghost adjv = vectors@;
        proof {
            assert(adjv.len() == self.vectors@.len());
            assert forall|l: int|
                #![trigger adjv[l]]
                0 <= l < adjv.len() implies crate::build::term_store::adjusted_vec(
                &self.terms,
                self.vectors@[l],
                adjv[l],
                match weights {
                    Some(w) => Some(w@[l]@),
                    None => None,
                },
                lengths@[l],
            ) by {}
        }
        proof {
            assert forall|k2: int|
                0 <= k2 < self.terms.spec_len() implies indexer.term_at(k2) == (
            #[trigger] self.terms.spec_terms()[k2]).0@ && indexer.df_at(k2)
                == self.terms.spec_doc_freq()[self.terms.spec_terms()[k2].1 as int] by {
                reveal(crate::term_store::TermIndexer::term_at);
                reveal(crate::term_store::TermIndexer::df_at);
                assert(indexer.storage_pos(k2) == k2);
            }
        }
        let ix = Index::from_parts(md, indexer, vstore);
        proof {
            assert forall|l: int|
                0 <= l < self.vectors@.len() implies (
            #[trigger] self.vectors@[l]).document.enc_ok() by {
                assert(adjv[l].document.enc_ok());
                assert(adjv[l].document == self.vectors@[l].document);
            }
            assert forall|i: int|
                0 <= i < adjv.len() implies (
            #[trigger] ix.spec_vector_store().spec_store().record(i))
                == crate::document::vec_blob(adjv[i].spec_vec()) + adjv[i].document.enc() by {}
            assert forall|i: int, d: u32|
                #![trigger crate::vector::seq_has_dim(adjv[i].spec_vec().spec_pairs(), d)]
                0 <= i < adjv.len() implies (crate::inv_index::u32_in(
                ix.spec_vector_store().spec_map().posting(d as int),
                i as u32,
            ) <==> crate::vector::seq_has_dim(adjv[i].spec_vec().spec_pairs(), d)) by {}
        }
        Ok(ix)
    }
}

} // verus!
