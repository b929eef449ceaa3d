//! An opened search index: term dictionary, metadata, and vector store
//! with its bound inverted index.
//!
//! Query vectors are built by resolving terms to their dimensions through
//! the dictionary; candidate retrieval then goes through the vector store.

use vstd::prelude::*;

use crate::document::DocumentVector;
use crate::error::Error;
use crate::metadata::DefaultMetadata;
use crate::term_store::item::IndexTerm;
use crate::term_store::TermIndexer;
use crate::traits::{push_u64_le, read_u64_le, spec_u64_from_le_bytes, spec_u64_to_le_bytes, Decodable};
use crate::vector::{first_weight, Vector, WEIGHT_ONE};
use crate::vector_store::VectorStore;

verus! {

/// Some given query term resolves to the rank and weight of `e`: the
/// term's text is the dictionary entry at `e`'s rank, and `e` carries the
/// weight given with it.
#[verifier::opaque]
pub open spec fn entry_resolves(t: TermIndexer, terms: Seq<(Vec<u8>, u32)>, e: (u32, u32)) -> bool {
    exists|jj: int|
        0 <= jj < terms.len() && (#[trigger] terms[jj]).0@ == t.term_at(e.0 as int) && e.1
            == terms[jj].1
}

/// Some resolved pair of `cseq` has rank whose dictionary text is `txt`.
#[verifier::opaque]
pub open spec fn rank_covered(t: TermIndexer, cseq: Seq<(u32, u32)>, txt: Seq<u8>) -> bool {
    exists|m: int| 0 <= m < cseq.len() && t.term_at((#[trigger] cseq[m]).0 as int) == txt
}

/// A loaded index over payload type `D`.
pub struct Index<D> {
    metadata: DefaultMetadata,
    indexer: TermIndexer,
    vector_store: VectorStore<D>,
}

impl<D: Decodable> Index<D> {
    pub closed spec fn spec_metadata(&self) -> DefaultMetadata {
        self.metadata
    }

    pub closed spec fn spec_indexer(&self) -> TermIndexer {
        self.indexer
    }

    pub closed spec fn spec_vector_store(&self) -> VectorStore<D> {
        self.vector_store
    }

    /// Well-formed: dictionary and store are sound and the metadata's
    /// document count is the store's size.
    pub open spec fn wf(&self) -> bool {
        &&& self.spec_indexer().wf()
        &&& self.spec_vector_store().wf()
        &&& self.spec_metadata().document_count == self.spec_vector_store().spec_len()
    }

    /// Every stored payload parses with `D`.
    pub open spec fn payloads_ok(&self) -> bool {
        self.spec_vector_store().payloads_ok()
    }

    pub(crate) fn from_parts(
        metadata: DefaultMetadata,
        indexer: TermIndexer,
        vector_store: VectorStore<D>,
    ) -> (r: Index<D>)
        requires
            indexer.wf(),
            vector_store.wf(),
            metadata.document_count == vector_store.spec_len(),
        ensures
            r.wf(),
            r.spec_metadata() == metadata,
            r.spec_indexer() == indexer,
            r.spec_vector_store() == vector_store,
    {
        Index { metadata, indexer, vector_store }
    }

    /// Returns the vector store of the index.
    pub fn get_vector_store(&self) -> (r: &VectorStore<D>)
        ensures
            *r == self.spec_vector_store(),
    {
        &self.vector_store
    }

    /// Returns the term dictionary of the index.
    pub fn get_indexer(&self) -> (r: &TermIndexer)
        ensures
            *r == self.spec_indexer(),
    {
        &self.indexer
    }

    /// Returns the index's metadata.
    pub fn get_metadata(&self) -> (r: &DefaultMetadata)
        ensures
            *r == self.spec_metadata(),
    {
        &self.metadata
    }

    /// Returns `true` if the index has no terms or no vectors.
    pub fn is_empty(&self) -> (r: bool)
        ensures
            r == (self.spec_indexer().spec_len() == 0 || self.spec_vector_store().spec_len()
                == 0),
    {
        self.indexer.is_empty() || self.vector_store.is_empty()
    }

    /// Resolves each given `(term, weight bits)` pair to `(dimension,
    /// weight bits)`, skipping unknown terms.
    #[verifier::loop_isolation(false)]
    #[verifier::rlimit(60)]
    #[verifier::spinoff_prover]
    fn resolve_terms(&self, terms: &Vec<(Vec<u8>, u32)>) -> (r: Vec<(u32, u32)>)
        requires
            self.spec_indexer().wf(),
        ensures
            forall|m: int|
                0 <= m < r@.len() ==> 0 <= (#[trigger] r@[m]).0 < self.spec_indexer().spec_len()
                    && entry_resolves(self.spec_indexer(), terms@, r@[m]),
            forall|jj: int|
                0 <= jj < terms@.len() && self.spec_indexer().has_term((#[trigger] terms@[jj]).0@)
                    ==> rank_covered(self.spec_indexer(), r@, terms@[jj].0@),
    {
        let n = terms.len();
        let mut collected: Vec<(u32, u32)> = Vec::new();
        let mut j: usize = 0;
        while j < n
            invariant
                0 <= j <= n,
                forall|m: int|
                    0 <= m < collected@.len() ==> 0 <= (#[trigger] collected@[m]).0
                        < self.spec_indexer().spec_len() && entry_resolves(
                        self.spec_indexer(),
                        terms@,
                        collected@[m],
                    ),
                forall|jj: int|
                    0 <= jj < j && self.spec_indexer().has_term((#[trigger] terms@[jj]).0@)
                        ==> rank_covered(self.spec_indexer(), collected@, terms@[jj].0@),
            decreases n - j,
        {
            match self.indexer.get_term(terms[j].0.as_slice()) {
                Some(dim) => {
                    let w = terms[j].1;
                    let ghost prev = collected@;
                    collected.push((dim as u32, w));
                    proof {
                        assert(collected@.last() == (dim as u32, w));
                        assert(self.spec_indexer().term_at(dim as int) == terms@[j as int].0@);
                        assert(self.spec_indexer().has_term(terms@[j as int].0@));
                        assert(entry_resolves(
                            self.spec_indexer(),
                            terms@,
                            (dim as u32, w),
                        )) by {
                            reveal(entry_resolves);
                        }
                        assert forall|m: int|
                            0 <= m < collected@.len() implies 0 <= (#[trigger] collected@[m]).0
                            < self.spec_indexer().spec_len() && entry_resolves(
                            self.spec_indexer(),
                            terms@,
                            collected@[m],
                        ) by {
                            if m < prev.len() {
                                assert(collected@[m] == prev[m]);
                            }
                        }
                        assert forall|jj: int|
                            0 <= jj < j + 1 && self.spec_indexer().has_term(
                                (#[trigger] terms@[jj]).0@,
                            ) implies rank_covered(
                            self.spec_indexer(),
                            collected@,
                            terms@[jj].0@,
                        ) by {
                            reveal(rank_covered);
                            if jj < j as int {
                                let m = choose|m: int|
                                    0 <= m < prev.len() && self.spec_indexer().term_at(
                                        (#[trigger] prev[m]).0 as int,
                                    ) == terms@[jj].0@;
                                assert(collected@[m] == prev[m]);
                            } else {
                                assert(self.spec_indexer().term_at(
                                    collected@[collected@.len() - 1].0 as int,
                                ) == terms@[jj].0@);
                            }
                        }
                    }
                },
                None => {},
            }
            j += 1;
        }
        collected
    }

    /// Builds a query vector over the given `(term, weight bits)` pairs:
    /// each resolvable term contributes its dimension — its rank in the
    /// dictionary — with the weight given for it. Returns `None` when no
    /// term resolves; unresolved terms are silently dropped.
    #[verifier::loop_isolation(false)]
    #[verifier::rlimit(100)]
    #[verifier::spinoff_prover]
    pub fn build_vector_weights(&self, terms: &Vec<(Vec<u8>, u32)>) -> (r: Option<Vector>)
        requires
            self.spec_indexer().wf(),
        ensures
            r is Some <==> exists|j: int|
                0 <= j < terms@.len() && self.spec_indexer().has_term((#[trigger] terms@[j]).0@),
            r matches Some(v) ==> {
                &&& v.wf()
                &&& v.spec_length() == 0
                &&& forall|d: u32|
                    #![trigger v.spec_has_dim(d)]
                    v.spec_has_dim(d) <==> (0 <= d < self.spec_indexer().spec_len() && exists|
                        j: int,
                    |
                        0 <= j < terms@.len() && (#[trigger] terms@[j]).0@
                            == self.spec_indexer().term_at(d as int))
                &&& forall|i: int|
                    #![trigger v.spec_pairs()[i]]
                    0 <= i < v.spec_pairs().len() ==> entry_resolves(
                        self.spec_indexer(),
                        terms@,
                        v.spec_pairs()[i],
                    )
            },
    {
        let collected = self.resolve_terms(terms);
        if collected.len() == 0 {
            proof {
                assert forall|jj: int|
                    0 <= jj < terms@.len() implies !self.spec_indexer().has_term(
                    (#[trigger] terms@[jj]).0@,
                ) by {
                    if self.spec_indexer().has_term(terms@[jj].0@) {
                        assert(rank_covered(self.spec_indexer(), collected@, terms@[jj].0@));
                        reveal(rank_covered);
                        let m = choose|m: int|
                            0 <= m < collected@.len() && self.spec_indexer().term_at(
                                (#[trigger] collected@[m]).0 as int,
                            ) == terms@[jj].0@;
                    }
                }
            }
            return None;
        }
        let ghost cseq = collected@;
        proof {
            assert(0 <= cseq[0].0 < self.spec_indexer().spec_len());
            assert(entry_resolves(self.spec_indexer(), terms@, cseq[0]));
            reveal(entry_resolves);
            let jj = choose|jj: int|
                0 <= jj < terms@.len() && (#[trigger] terms@[jj]).0@
                    == self.spec_indexer().term_at(cseq[0].0 as int) && cseq[0].1
                    == terms@[jj].1;
            assert(self.spec_indexer().has_term(terms@[jj].0@)) by {
                assert(self.spec_indexer().term_at(cseq[0].0 as int) == terms@[jj].0@);
            }
        }
        let v = Vector::create_new_raw(collected);
        proof {
            lemma_resolved_vector_dims(self.spec_indexer(), terms@, cseq, v);
            lemma_resolved_vector_weights(self.spec_indexer(), terms@, cseq, v);
        }
        Some(v)
    }

    /// Builds a query vector over the given terms, each with weight `1.0`
    /// (as bits). Returns `None` when no term resolves. Callers that weight
    /// query terms compute the bits and use `build_vector_weights`.
    #[verifier::loop_isolation(false)]
    #[verifier::rlimit(100)]
    #[verifier::spinoff_prover]
    pub fn build_vector(&self, terms: &Vec<Vec<u8>>) -> (r: Option<Vector>)
        requires
            self.spec_indexer().wf(),
        ensures
            r is Some <==> exists|j: int|
                0 <= j < terms@.len() && self.spec_indexer().has_term((#[trigger] terms@[j])@),
            r matches Some(v) ==> {
                &&& v.wf()
                &&& v.spec_length() == 0
                &&& forall|d: u32|
                    #![trigger v.spec_has_dim(d)]
                    v.spec_has_dim(d) <==> (0 <= d < self.spec_indexer().spec_len() && exists|
                        j: int,
                    |
                        0 <= j < terms@.len() && (#[trigger] terms@[j])@
                            == self.spec_indexer().term_at(d as int))
                &&& forall|i: int|
                    #![trigger v.spec_pairs()[i]]
                    0 <= i < v.spec_pairs().len() ==> v.spec_pairs()[i].1 == WEIGHT_ONE
            },
    {
        let n = terms.len();
        let mut weighted: Vec<(Vec<u8>, u32)> = Vec::new();
        let mut j: usize = 0;
        while j < n
            invariant
                0 <= j <= n,
                weighted@.len() == j,
                forall|m: int|
                    0 <= m < j ==> (#[trigger] weighted@[m]).0@ == terms@[m]@ && weighted@[m].1
                        == WEIGHT_ONE,
            decreases n - j,
        {
            let text = vstd::slice::slice_to_vec(terms[j].as_slice());
            weighted.push((text, WEIGHT_ONE));
            j += 1;
        }
        let r = self.build_vector_weights(&weighted);
        proof {
            if exists|j2: int|
                0 <= j2 < terms@.len() && self.spec_indexer().has_term((#[trigger] terms@[j2])@) {
                let j2 = choose|j2: int|
                    0 <= j2 < terms@.len() && self.spec_indexer().has_term(
                        (#[trigger] terms@[j2])@,
                    );
                assert(self.spec_indexer().has_term(weighted@[j2].0@));
            }
            if exists|j2: int|
                0 <= j2 < weighted@.len() && self.spec_indexer().has_term(
                    (#[trigger] weighted@[j2]).0@,
                ) {
                let j2 = choose|j2: int|
                    0 <= j2 < weighted@.len() && self.spec_indexer().has_term(
                        (#[trigger] weighted@[j2]).0@,
                    );
                assert(self.spec_indexer().has_term(terms@[j2]@));
            }
            if r is Some {
                let v = r.unwrap();
                assert forall|d: u32|
                    #![trigger v.spec_has_dim(d)]
                    v.spec_has_dim(d) <==> (0 <= d < self.spec_indexer().spec_len() && exists|
                    j2: int,
                |
                    0 <= j2 < terms@.len() && (#[trigger] terms@[j2])@
                        == self.spec_indexer().term_at(d as int)) by {
                    if v.spec_has_dim(d) {
                        let j2 = choose|j2: int|
                            0 <= j2 < weighted@.len() && (#[trigger] weighted@[j2]).0@
                                == self.spec_indexer().term_at(d as int);
                        assert(terms@[j2]@ == self.spec_indexer().term_at(d as int));
                    }
                    if 0 <= d < self.spec_indexer().spec_len() && exists|j2: int|
                        0 <= j2 < terms@.len() && (#[trigger] terms@[j2])@
                            == self.spec_indexer().term_at(d as int) {
                        let j2 = choose|j2: int|
                            0 <= j2 < terms@.len() && (#[trigger] terms@[j2])@
                                == self.spec_indexer().term_at(d as int);
                        assert(weighted@[j2].0@ == self.spec_indexer().term_at(d as int));
                    }
                }
                assert forall|i: int|
                    #![trigger v.spec_pairs()[i]]
                    0 <= i < v.spec_pairs().len() implies v.spec_pairs()[i].1 == WEIGHT_ONE by {
                    assert(entry_resolves(self.spec_indexer(), weighted@, v.spec_pairs()[i]));
                    reveal(entry_resolves);
                    let j2 = choose|j2: int|
                        0 <= j2 < weighted@.len() && (#[trigger] weighted@[j2]).0@
                            == self.spec_indexer().term_at(v.spec_pairs()[i].0 as int)
                            && v.spec_pairs()[i].1 == weighted@[j2].1;
                    assert(weighted@[j2].1 == WEIGHT_ONE);
                }
            }
        }
        r
    }

    /// Whether `term` is a stopword under the given threshold: present in
    /// at least `threshold` percent of the documents. Returns `None` for
    /// an unknown term.
    pub fn is_stopword_cust(&self, term: &[u8], threshold: u32) -> (r: Option<bool>)
        requires
            self.wf(),
        ensures
            r matches Some(b) ==> exists|df: u32|
                self.spec_indexer().has_entry(term@, df) && b == ((df as int) * 100 >= (
                threshold as int) * self.spec_vector_store().spec_len()),
            r is None <==> !self.spec_indexer().has_term(term@),
    {
        let t = match self.indexer.find_term(term) {
            Some(t) => t,
            None => {
                return None;
            },
        };
        let tot_docs = self.vector_store.len();
        let df = t.doc_frequency();
        proof {
            assert((threshold as int) * (tot_docs as int) < 0x1_0000_0000_0000_0000_0000_0000)
                by (nonlinear_arith)
                requires
                    0 <= threshold <= 0xffff_ffff,
                    0 <= tot_docs <= 0xffff_ffff_ffff_ffff,
            ;
        }
        let lhs: u128 = (df as u128) * 100;
        let rhs: u128 = (threshold as u128) * (tot_docs as u128);
        Some(lhs >= rhs)
    }

    /// Whether `term` is a stopword: present in at least 35 percent of the
    /// documents.
    pub fn is_stopword(&self, term: &[u8]) -> (r: Option<bool>)
        requires
            self.wf(),
        ensures
            r matches Some(b) ==> exists|df: u32|
                self.spec_indexer().has_entry(term@, df) && b == ((df as int) * 100 >= 35
                    * self.spec_vector_store().spec_len()),
            r is None <==> !self.spec_indexer().has_term(term@),
    {
        self.is_stopword_cust(term, 35)
    }

    /// Creates the dictionary's sort permutation, enabling post-load term
    /// appends through `insert_new_term`. Does nothing when a permutation
    /// already exists.
    pub fn build_cust_sort(&mut self)
        requires
            old(self).wf(),
        ensures
            final(self).wf(),
            final(self).spec_vector_store() == old(self).spec_vector_store(),
            final(self).spec_metadata() == old(self).spec_metadata(),
            final(self).spec_indexer().spec_len() == old(self).spec_indexer().spec_len(),
            forall|i: int|
                0 <= i < final(self).spec_indexer().spec_len() ==> final(self).spec_indexer().term_at(i) == old(self).spec_indexer().term_at(i) && final(self).spec_indexer().df_at(i) == old(self).spec_indexer().df_at(i),
            old(self).spec_indexer().sorted_mode() && old(self).spec_indexer().spec_len() > 0
                ==> !final(self).spec_indexer().sorted_mode(),
    {
        self.indexer.build_cust_sort();
    }

    /// Appends a new term to the loaded dictionary. Requires the sort
    /// permutation (`build_cust_sort`) and a text not yet present; returns
    /// the new record's storage id, or `None` without a permutation.
    pub fn insert_new_term(&mut self, term: IndexTerm) -> (r: Option<u32>)
        requires
            old(self).wf(),
            old(self).spec_indexer().spec_len() + 1 <= u32::MAX,
            old(self).spec_indexer().spec_index().spec_data().len() + 4
                + term.spec_text().len() <= u32::MAX,
            !old(self).spec_indexer().has_term(term.spec_text()),
            crate::term_store::item::term_text_wf(term.spec_text()),
        ensures
            final(self).wf(),
            final(self).spec_vector_store() == old(self).spec_vector_store(),
            final(self).spec_metadata() == old(self).spec_metadata(),
            old(self).spec_indexer().sorted_mode() ==> r is None && final(self).spec_indexer()
                == old(self).spec_indexer(),
            !old(self).spec_indexer().sorted_mode() ==> {
                &&& r == Some(old(self).spec_indexer().spec_len() as u32)
                &&& final(self).spec_indexer().spec_len() == old(self).spec_indexer().spec_len()
                    + 1
                &&& final(self).spec_indexer().has_entry(
                    term.spec_text(),
                    term.spec_doc_frequency(),
                )
                &&& forall|t: Seq<u8>, df: u32|
                    #![trigger final(self).spec_indexer().has_entry(t, df)]
                    final(self).spec_indexer().has_entry(t, df) <==> (old(self).spec_indexer().has_entry(t, df) || (t == term.spec_text() && df
                        == term.spec_doc_frequency()))
            },
    {
        self.indexer.insert_new(term)
    }

    /// The `u32` word at slot `x` of a word array starting at `base`.
    pub open spec fn word_at(data: Seq<u8>, base: int, x: int) -> int {
        crate::traits::spec_u32_from_le_bytes(data.subrange(base + 4 * x, base + 4 * x + 4)) as int
    }

    /// A complete, well-formed archive for payload type `D`: the magic
    /// prefix; the four framed sections, each valid and matching its
    /// length prefix; the document count equal to the number of stored
    /// records; every posting id addressing a stored record; every record
    /// parsing as a document vector with a `D` payload; and nothing after
    /// the last section.
    pub open spec fn archive_ok(data: Seq<u8>) -> bool {
        let mlen = spec_u64_from_le_bytes(data.subrange(4, 12)) as int;
        let tlen = spec_u64_from_le_bytes(data.subrange(21, 29)) as int;
        let tend = TermIndexer::bytes_end(data, 29);
        let istart = tend + 8;
        let ilen = spec_u64_from_le_bytes(data.subrange(tend, tend + 8)) as int;
        let iend = crate::inv_index::InvertedIndex::bytes_end(data, istart);
        let sstart = iend + 8;
        let slen = spec_u64_from_le_bytes(data.subrange(iend, iend + 8)) as int;
        let send = crate::mem_file::MemFile::parse_end(data, sstart);
        let nrec = spec_u64_from_le_bytes(data.subrange(sstart, sstart + 8)) as int;
        let ni = spec_u64_from_le_bytes(data.subrange(istart, istart + 8)) as int;
        let iwstart = istart + 16 + 4 * ni;
        &&& data.len() >= 29
        &&& data[0] == 0x56 && data[1] == 0x53 && data[2] == 0x4d && data[3] == 0x31
        &&& mlen == 9
        &&& DefaultMetadata::parse_ok(data, 12)
        &&& TermIndexer::bytes_ok(data, 29)
        &&& tlen == tend - 29
        &&& tend + 8 <= data.len()
        &&& crate::inv_index::InvertedIndex::bytes_ok(data, istart)
        &&& ilen == iend - istart
        &&& iend + 8 <= data.len()
        &&& crate::mem_file::MemFile::parse_ok(data, sstart)
        &&& slen == send - sstart
        &&& send == data.len()
        &&& spec_u64_from_le_bytes(data.subrange(13, 21)) == nrec
        &&& (forall|d: int, k: int|
            #![trigger Self::word_at(data, iwstart, Self::word_at(data, istart + 8, d) + 1 + k)]
            0 <= d < ni && 0 <= k < Self::word_at(
                data,
                iwstart,
                Self::word_at(data, istart + 8, d),
            ) ==> Self::word_at(data, iwstart, Self::word_at(data, istart + 8, d) + 1 + k) < nrec)
        &&& (forall|i: int|
            0 <= i < nrec ==> crate::document::docvec_parse_ok::<D>(
                #[trigger] TermIndexer::bytes_record(data, sstart, i),
                0,
            ))
    }

    /// The exact serialized archive: the magic prefix, then the four
    /// sections — metadata, term dictionary, inverted index, vector store —
    /// each preceded by its little-endian `u64` byte length.
    pub open spec fn spec_archive(&self) -> Seq<u8> {
        seq![0x56u8, 0x53u8, 0x4du8, 0x31u8]
            + spec_u64_to_le_bytes(self.spec_metadata().spec_encoding().len() as u64)
            + self.spec_metadata().spec_encoding() + spec_u64_to_le_bytes(
            self.spec_indexer().spec_encoding().len() as u64,
        ) + self.spec_indexer().spec_encoding() + spec_u64_to_le_bytes(
            self.spec_vector_store().spec_map().spec_encoding().len() as u64,
        ) + self.spec_vector_store().spec_map().spec_encoding() + spec_u64_to_le_bytes(
            self.spec_vector_store().spec_store().spec_encoding().len() as u64,
        ) + self.spec_vector_store().spec_store().spec_encoding()
    }

    /// Serializes the whole index as one self-describing artifact. Two
    /// indexes with equal components serialize to identical bytes.
    pub fn to_bytes(&self) -> (r: Vec<u8>)
        ensures
            r@ == self.spec_archive(),
    {
        let mut out: Vec<u8> = Vec::new();
        out.push(0x56);
        out.push(0x53);
        out.push(0x4d);
        out.push(0x31);
        let mut meta = self.metadata.encode();
        push_u64_le(&mut out, meta.len() as u64);
        out.append(&mut meta);
        let mut terms = self.indexer.encode();
        push_u64_le(&mut out, terms.len() as u64);
        out.append(&mut terms);
        let mut map = self.vector_store.get_map().encode();
        push_u64_le(&mut out, map.len() as u64);
        out.append(&mut map);
        let mut store = self.vector_store.encode_store();
        push_u64_le(&mut out, store.len() as u64);
        out.append(&mut store);
        proof {
            assert(out@ =~= self.spec_archive());
        }
        out
    }

    /// Reads an archive back, validating the magic prefix, every section,
    /// and the cross-section invariants: every posting id addresses a
    /// stored vector, every record decodes (payload included), and the
    /// document count matches the store. Succeeds exactly on well-formed
    /// archives (`archive_ok`); any violation is `InvalidIndex`.
    #[verifier::loop_isolation(false)]
    #[verifier::rlimit(100)]
    #[verifier::spinoff_prover]
    pub fn from_reader(data: &[u8]) -> (r: Result<Index<D>, Error>)
        ensures
            r matches Ok(ix) ==> ix.wf() && ix.payloads_ok() && ix.spec_archive() == data@
                && Self::archive_ok(data@),
            r is Err ==> !Self::archive_ok(data@),
    {
        let len = data.len();
        if len < 4 || !(data[0] == 0x56 && data[1] == 0x53 && data[2] == 0x4d && data[3]
            == 0x31) {
            return Err(Error::InvalidIndex);
        }
        let mut pos: usize = 4;
        if !(len >= 8 && pos <= len - 8) {
            return Err(Error::InvalidIndex);
        }
        let mlen = read_u64_le(data, pos);
        pos = pos + 8;
        let ghost mstart = pos as int;
        let (metadata, mend) = match DefaultMetadata::decode(data, pos) {
            Ok(p) => p,
            Err(_) => {
                return Err(Error::InvalidIndex);
            },
        };
        if (mend - pos) as u64 != mlen {
            return Err(Error::InvalidIndex);
        }
        pos = mend;
        if !(len >= 8 && pos <= len - 8) {
            return Err(Error::InvalidIndex);
        }
        let tlen = read_u64_le(data, pos);
        pos = pos + 8;
        let ghost tstart = pos as int;
        let (indexer, tend) = match TermIndexer::decode(data, pos) {
            Ok(p) => p,
            Err(_) => {
                return Err(Error::InvalidIndex);
            },
        };
        if (tend - pos) as u64 != tlen {
            return Err(Error::InvalidIndex);
        }
        pos = tend;
        if !(len >= 8 && pos <= len - 8) {
            return Err(Error::InvalidIndex);
        }
        let ilen = read_u64_le(data, pos);
        pos = pos + 8;
        let ghost istart = pos as int;
        let (map, iend) = match crate::inv_index::InvertedIndex::decode(data, pos) {
            Ok(p) => p,
            Err(_) => {
                return Err(Error::InvalidIndex);
            },
        };
        if (iend - pos) as u64 != ilen {
            return Err(Error::InvalidIndex);
        }
        pos = iend;
        if !(len >= 8 && pos <= len - 8) {
            return Err(Error::InvalidIndex);
        }
        let slen = read_u64_le(data, pos);
        pos = pos + 8;
        let ghost sstart = pos as int;
        let (store, send) = match crate::mem_file::MemFile::decode(data, pos) {
            Ok(p) => p,
            Err(_) => {
                return Err(Error::InvalidIndex);
            },
        };
        if (send - pos) as u64 != slen {
            return Err(Error::InvalidIndex);
        }
        // cross-section validation: every record must decode fully
        let n = store.len();
        let mut i: usize = 0;
        while i < n
            invariant
                0 <= i <= n,
                n == store.spec_len(),
                store.wf(),
                forall|l: int|
                    0 <= l < i ==> crate::document::record_blob_ok(
                        #[trigger] store.record(l),
                        0,
                    ) && D::dec_ok(
                        store.record(l),
                        crate::document::record_payload_pos(store.record(l), 0),
                    ),
            decreases n - i,
        {
            let rec = match store.get(i) {
                Some(rec) => rec,
                None => {
                    proof {
                        assert(false);
                    }
                    return Err(Error::InvalidIndex);
                },
            };
            match DocumentVector::<D>::decode(rec.as_slice(), 0) {
                Ok(_) => {},
                Err(_) => {
                    proof {
                        if Self::archive_ok(data@) {
                            assert(tstart == 29);
                            crate::term_store::lemma_records_from_bytes(
                                data@,
                                sstart,
                                store,
                                send as int,
                            );
                            assert(store.record(i as int) == TermIndexer::bytes_record(
                                data@,
                                sstart,
                                i as int,
                            ));
                            assert(spec_u64_from_le_bytes(data@.subrange(sstart, sstart + 8))
                                == store.spec_len());
                            assert(crate::document::docvec_parse_ok::<D>(
                                TermIndexer::bytes_record(data@, sstart, i as int),
                                0,
                            ));
                        }
                    }
                    return Err(Error::InvalidIndex);
                },
            }
            i += 1;
        }
        // every posting id must address a stored vector
        let dims = map.dims_count();
        let mut d: usize = 0;
        while d < dims
            invariant
                0 <= d <= dims,
                dims == map.dims(),
                map.wf(),
                n == store.spec_len(),
                forall|d2: int, k2: int|
                    0 <= d2 < d && 0 <= k2 < map.posting(d2).len() ==> (#[trigger] map.posting(
                        d2,
                    )[k2]) < n,
            decreases dims - d,
        {
            match map.get(d as u32) {
                Some(ids) => {
                    let m = ids.len();
                    let mut k: usize = 0;
                    while k < m
                        invariant
                            0 <= k <= m,
                            d < dims == map.dims(),
                            map.wf(),
                            m == map.posting(d as int).len(),
                            ids@ == map.posting(d as int),
                            forall|k2: int|
                                0 <= k2 < k ==> (#[trigger] map.posting(d as int)[k2]) < n,
                        decreases m - k,
                    {
                        if ids[k] as usize >= n {
                            proof {
                                if Self::archive_ok(data@) {
                                    assert(tstart == 29);
                                    assert(map.spec_encoding().len() == 16 + 4 * map.dims() + 4
                                        * map.spec_words().len()) by {
                                        crate::traits::lemma_u32s_le_bytes_len(
                                            map.spec_offsets(),
                                        );
                                        crate::traits::lemma_u32s_le_bytes_len(map.spec_words());
                                        vstd::bytes::lemma_auto_spec_u64_to_from_le_bytes();
                                    }
                                    crate::inv_index::lemma_encoding_reads(&map, data@, istart);
                                    let ni = spec_u64_from_le_bytes(
                                        data@.subrange(istart, istart + 8),
                                    ) as int;
                                    assert(ni == map.dims());
                                    let iwstart = istart + 16 + 4 * ni;
                                    let off = map.spec_offsets()[d as int] as int;
                                    assert(Self::word_at(data@, istart + 8, d as int) == off);
                                    assert(Self::word_at(data@, iwstart, off)
                                        == map.spec_words()[off] as int);
                                    assert(map.spec_words()[off] as int == map.posting(
                                        d as int,
                                    ).len());
                                    assert(map.posting(d as int)[k as int]
                                        == map.spec_words()[off + 1 + k]);
                                    assert(Self::word_at(data@, iwstart, off + 1 + k as int)
                                        == map.spec_words()[off + 1 + k] as int);
                                    assert(Self::word_at(
                                        data@,
                                        iwstart,
                                        Self::word_at(data@, istart + 8, d as int) + 1 + (
                                        k as int),
                                    ) < spec_u64_from_le_bytes(
                                        data@.subrange(sstart, sstart + 8),
                                    ) as int);
                                    assert(spec_u64_from_le_bytes(
                                        data@.subrange(sstart, sstart + 8),
                                    ) == store.spec_len());
                                }
                            }
                            return Err(Error::InvalidIndex);
                        }
                        k += 1;
                    }
                },
                None => {},
            }
            proof {
                assert forall|d2: int, k2: int|
                    0 <= d2 < d + 1 && 0 <= k2 < map.posting(d2).len() implies (
                #[trigger] map.posting(d2)[k2]) < n by {
                    if d2 == d as int {
                        assert(map.posting(d as int).len() > 0 ==> map.posting(d as int)[k2] < n);
                    }
                }
            }
            d += 1;
        }
        if metadata.get_document_count() != n {
            return Err(Error::InvalidIndex);
        }
        if send != len {
            return Err(Error::InvalidIndex);
        }
        let vstore = VectorStore::<D>::from_parts(store, map);
        let ix = Index::from_parts(metadata, indexer, vstore);
        proof {
            vstd::bytes::lemma_auto_spec_u64_to_from_le_bytes();
            assert(data@.subrange(0, 4) =~= seq![0x56u8, 0x53u8, 0x4du8, 0x31u8]);
            assert(spec_u64_to_le_bytes(mlen) == data@.subrange(4, 12)) by {
                assert(mlen == crate::traits::spec_u64_from_le_bytes(data@.subrange(4, 12)));
                assert(data@.subrange(4, 12).len() == 8);
            }
            assert(metadata.spec_encoding() == data@.subrange(mstart, mstart + 9));
            assert(mlen == metadata.spec_encoding().len());
            assert(spec_u64_to_le_bytes(tlen) == data@.subrange(mstart + 9, tstart)) by {
                assert(tlen == crate::traits::spec_u64_from_le_bytes(
                    data@.subrange(mstart + 9, tstart),
                ));
                assert(data@.subrange(mstart + 9, tstart).len() == 8);
            }
            assert(indexer.spec_encoding() == data@.subrange(tstart, tstart
                + indexer.spec_encoding().len()));
            assert(tlen == indexer.spec_encoding().len());
            assert(spec_u64_to_le_bytes(ilen) == data@.subrange(
                tstart + tlen as int,
                istart,
            )) by {
                assert(ilen == crate::traits::spec_u64_from_le_bytes(
                    data@.subrange(tstart + tlen as int, istart),
                ));
                assert(data@.subrange(tstart + tlen as int, istart).len() == 8);
            }
            assert(map.spec_encoding() == data@.subrange(istart, istart
                + map.spec_encoding().len()));
            assert(ilen == map.spec_encoding().len());
            assert(spec_u64_to_le_bytes(slen) == data@.subrange(
                istart + ilen as int,
                sstart,
            )) by {
                assert(slen == crate::traits::spec_u64_from_le_bytes(
                    data@.subrange(istart + ilen as int, sstart),
                ));
                assert(data@.subrange(istart + ilen as int, sstart).len() == 8);
            }
            assert(store.spec_encoding() == data@.subrange(sstart, sstart
                + store.spec_encoding().len()));
            assert(slen == store.spec_encoding().len());
            assert(ix.spec_archive() =~= data@);
            // the bytes form a complete well-formed archive
            assert(Self::archive_ok(data@)) by {
                assert(tstart == 29);
                assert(map.spec_encoding().len() == 16 + 4 * map.dims() + 4
                    * map.spec_words().len()) by {
                    crate::traits::lemma_u32s_le_bytes_len(map.spec_offsets());
                    crate::traits::lemma_u32s_le_bytes_len(map.spec_words());
                }
                crate::inv_index::lemma_encoding_reads(&map, data@, istart);
                let ni = spec_u64_from_le_bytes(data@.subrange(istart, istart + 8)) as int;
                assert(ni == map.dims());
                let iwstart = istart + 16 + 4 * ni;
                let nrec = spec_u64_from_le_bytes(data@.subrange(sstart, sstart + 8)) as int;
                assert(nrec == store.spec_len());
                assert forall|d2: int, k2: int|
                    #![trigger Self::word_at(data@, iwstart, Self::word_at(data@, istart + 8, d2) + 1 + k2)]
                    0 <= d2 < ni && 0 <= k2 < Self::word_at(
                        data@,
                        iwstart,
                        Self::word_at(data@, istart + 8, d2),
                    ) implies Self::word_at(
                    data@,
                    iwstart,
                    Self::word_at(data@, istart + 8, d2) + 1 + k2,
                ) < nrec by {
                    let off = map.spec_offsets()[d2] as int;
                    assert(Self::word_at(data@, istart + 8, d2) == off);
                    assert(Self::word_at(data@, iwstart, off) == map.spec_words()[off] as int);
                    assert(map.spec_words()[off] as int == map.posting(d2).len());
                    assert(Self::word_at(data@, iwstart, off + 1 + k2) == map.spec_words()[off + 1
                        + k2] as int);
                    assert(map.posting(d2)[k2] == map.spec_words()[off + 1 + k2]);
                    assert(map.posting(d2)[k2] < store.spec_len());
                }
                crate::term_store::lemma_records_from_bytes(data@, sstart, store, send as int);
                assert forall|i2: int|
                    0 <= i2 < nrec implies crate::document::docvec_parse_ok::<D>(
                    #[trigger] TermIndexer::bytes_record(data@, sstart, i2),
                    0,
                ) by {
                    assert(store.record(i2) == TermIndexer::bytes_record(data@, sstart, i2));
                    assert(crate::document::record_blob_ok(store.record(i2), 0));
                    assert(D::dec_ok(
                        store.record(i2),
                        crate::document::record_payload_pos(store.record(i2), 0),
                    ));
                }
                assert(spec_u64_from_le_bytes(data@.subrange(13, 21)) == nrec);
            }
        }
        Ok(ix)
    }
}

/// Serialization is a function of the index's components alone: two
/// indexes with equal metadata, dictionary, and vector store serialize to
/// identical archive bytes, so rebuilding an index from the same inputs
/// yields a byte-identical artifact.
pub proof fn lemma_archive_deterministic<D: Decodable>(a: &Index<D>, b: &Index<D>)
    requires
        a.spec_metadata() == b.spec_metadata(),
        a.spec_indexer() == b.spec_indexer(),
        a.spec_vector_store().spec_map() == b.spec_vector_store().spec_map(),
        a.spec_vector_store().spec_store() == b.spec_vector_store().spec_store(),
    ensures
        a.spec_archive() == b.spec_archive(),
{
}

/// A vector built over resolved `(dimension, weight)` pairs has exactly
/// the ranks of the resolvable query terms as its dimensions.
#[verifier::rlimit(100)]
#[verifier::spinoff_prover]
proof fn lemma_resolved_vector_dims(
    t: TermIndexer,
    terms: Seq<(Vec<u8>, u32)>,
    cseq: Seq<(u32, u32)>,
    v: Vector,
)
    requires
        t.wf(),
        forall|m: int|
            0 <= m < cseq.len() ==> 0 <= (#[trigger] cseq[m]).0 < t.spec_len() && entry_resolves(
                t,
                terms,
                cseq[m],
            ),
        forall|jj: int|
            0 <= jj < terms.len() && t.has_term((#[trigger] terms[jj]).0@) ==> rank_covered(
                t,
                cseq,
                terms[jj].0@,
            ),
        forall|d: u32| v.spec_has_dim(d) <==> crate::vector::seq_has_dim(cseq, d),
    ensures
        forall|d: u32|
            #![trigger v.spec_has_dim(d)]
            v.spec_has_dim(d) <==> (0 <= d < t.spec_len() && exists|j: int|
                0 <= j < terms.len() && (#[trigger] terms[j]).0@ == t.term_at(d as int)),
{
    assert forall|d: u32|
        #![trigger v.spec_has_dim(d)]
        v.spec_has_dim(d) <==> (0 <= d < t.spec_len() && exists|j2: int|
            0 <= j2 < terms.len() && (#[trigger] terms[j2]).0@ == t.term_at(d as int)) by {
        if v.spec_has_dim(d) {
            assert(crate::vector::seq_has_dim(cseq, d));
            let m = choose|m: int| 0 <= m < cseq.len() && (#[trigger] cseq[m]).0 == d;
            assert(entry_resolves(t, terms, cseq[m]));
            reveal(entry_resolves);
            let jj = choose|jj: int|
                0 <= jj < terms.len() && (#[trigger] terms[jj]).0@ == t.term_at(
                    cseq[m].0 as int,
                ) && cseq[m].1 == terms[jj].1;
            assert(terms[jj].0@ == t.term_at(d as int));
        }
        if 0 <= d < t.spec_len() && exists|j2: int|
            0 <= j2 < terms.len() && (#[trigger] terms[j2]).0@ == t.term_at(d as int) {
            let j2 = choose|j2: int|
                0 <= j2 < terms.len() && (#[trigger] terms[j2]).0@ == t.term_at(d as int);
            assert(t.has_term(terms[j2].0@)) by {
                assert(t.term_at(d as int) == terms[j2].0@);
            }
            assert(rank_covered(t, cseq, terms[j2].0@));
            reveal(rank_covered);
            let m = choose|m: int|
                0 <= m < cseq.len() && t.term_at((#[trigger] cseq[m]).0 as int) == terms[j2].0@;
            crate::term_store::lemma_rank_unique(&t, cseq[m].0 as int, d as int);
            assert(cseq[m].0 == d);
            assert(crate::vector::seq_has_dim(cseq, d));
        }
    }
}

/// Each pair of such a vector carries a weight supplied with a query term
/// of its rank.
#[verifier::rlimit(100)]
#[verifier::spinoff_prover]
proof fn lemma_resolved_vector_weights(
    t: TermIndexer,
    terms: Seq<(Vec<u8>, u32)>,
    cseq: Seq<(u32, u32)>,
    v: Vector,
)
    requires
        forall|m: int|
            0 <= m < cseq.len() ==> 0 <= (#[trigger] cseq[m]).0 < t.spec_len() && entry_resolves(
                t,
                terms,
                cseq[m],
            ),
        forall|d: u32| v.spec_has_dim(d) <==> crate::vector::seq_has_dim(cseq, d),
        forall|i: int|
            0 <= i < v.spec_pairs().len() ==> (#[trigger] v.spec_pairs()[i]).1 == first_weight(
                cseq,
                v.spec_pairs()[i].0,
            ),
    ensures
        forall|i: int|
            #![trigger v.spec_pairs()[i]]
            0 <= i < v.spec_pairs().len() ==> entry_resolves(t, terms, v.spec_pairs()[i]),
{
    assert forall|i: int|
        #![trigger v.spec_pairs()[i]]
        0 <= i < v.spec_pairs().len() implies entry_resolves(t, terms, v.spec_pairs()[i]) by {
        let d = v.spec_pairs()[i].0;
        assert(v.spec_pairs()[i].1 == first_weight(cseq, d));
        assert(v.spec_has_dim(d)) by {
            assert(v.spec_pairs()[i].0 == d);
        }
        assert(crate::vector::seq_has_dim(cseq, d));
        crate::vector::lemma_first_weight_entry(cseq, d);
        let m = choose|m: int|
            0 <= m < cseq.len() && (#[trigger] cseq[m]).0 == d && cseq[m].1 == first_weight(
                cseq,
                d,
            );
        assert(entry_resolves(t, terms, cseq[m]));
        assert(cseq[m] == v.spec_pairs()[i]);
    }
}

} // verus!
