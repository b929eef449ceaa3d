//! The term dictionary.
//!
//! An in-memory, binary-searchable store of encoded term records. A term's
//! dimension id is its zero-based rank in byte-lexicographic order of the
//! term texts. Freshly built dictionaries keep their records physically in
//! that order; after `build_cust_sort` an explicit sort permutation maps
//! ranks to storage positions, which lets `insert_new` append new terms
//! without rewriting the byte store.
//!
//! Serialized form: the record store (see `MemFile`), then
//! `[u64 total documents] [u64 permutation length] [u32 storage position]*`.

pub mod item;

use vstd::prelude::*;

use crate::error::Error;
use crate::lex::{lemma_lex_transitive, lemma_lex_trichotomy, lex_cmp, lex_lt};
use crate::mem_file::MemFile;
use crate::term_store::item::{record_df, record_text, term_record_wf, term_text_wf, IndexTerm};
use crate::traits::{
    push_u32s_le, push_u64_le, read_u32s_le, read_u64_le, spec_u32_from_le_bytes,
    spec_u64_from_le_bytes, spec_u64_to_le_bytes, u32s_le_bytes, Encodable,
};

verus! {

/// An in-memory term dictionary with efficient term-to-dimension lookup.
#[derive(Debug)]
pub struct TermIndexer {
    index: MemFile,
    tot_documents: usize,
    sort_index: Vec<u32>,
}

impl TermIndexer {
    pub closed spec fn spec_index(&self) -> MemFile {
        self.index
    }

    pub closed spec fn spec_tot_documents(&self) -> int {
        self.tot_documents as int
    }

    pub closed spec fn spec_sort_index(&self) -> Seq<u32> {
        self.sort_index@
    }

    /// Number of terms in the dictionary.
    pub open spec fn spec_len(&self) -> int {
        self.spec_index().spec_len()
    }

    /// No sort permutation: storage order is term order.
    pub open spec fn sorted_mode(&self) -> bool {
        self.spec_sort_index().len() == 0
    }

    /// The storage position of the term with dimension `i`.
    pub open spec fn storage_pos(&self, i: int) -> int {
        if self.sorted_mode() {
            i
        } else {
            self.spec_sort_index()[i] as int
        }
    }

    /// The text of the term with dimension `i`.
    #[verifier::opaque]
    pub open spec fn term_at(&self, i: int) -> Seq<u8> {
        record_text(self.spec_index().record(self.storage_pos(i)))
    }

    /// The doc frequency of the term with dimension `i`.
    #[verifier::opaque]
    pub open spec fn df_at(&self, i: int) -> u32 {
        record_df(self.spec_index().record(self.storage_pos(i)))
    }

    /// Whether some term has text `t`.
    pub open spec fn has_term(&self, t: Seq<u8>) -> bool {
        exists|i: int| 0 <= i < self.spec_len() && self.term_at(i) == t
    }

    /// Whether some term has text `t` and doc frequency `df`.
    pub open spec fn has_entry(&self, t: Seq<u8>, df: u32) -> bool {
        exists|i: int| 0 <= i < self.spec_len() && self.term_at(i) == t && self.df_at(i) == df
    }

    /// Well-formed: the record store is sound, every record carries its
    /// doc-frequency prefix, the permutation (when present) covers exactly
    /// the stored records, and term texts are strictly ascending in
    /// dimension order.
    pub open spec fn wf(&self) -> bool {
        &&& self.spec_index().wf()
        &&& self.spec_len() <= u32::MAX
        &&& forall|i: int|
            0 <= i < self.spec_len() ==> term_record_wf(#[trigger] self.spec_index().record(i))
                && term_text_wf(record_text(self.spec_index().record(i)))
        &&& (!self.sorted_mode() ==> self.spec_sort_index().len() == self.spec_len())
        &&& (!self.sorted_mode() ==> forall|i: int|
            0 <= i < self.spec_len() ==> 0 <= (#[trigger] self.spec_sort_index()[i])
                < self.spec_len())
        &&& forall|i: int, j: int|
            0 <= i < j < self.spec_len() ==> lex_lt(
                #[trigger] self.term_at(i),
                #[trigger] self.term_at(j),
            )
    }

    /// Builds a dictionary directly over a record store whose records are
    /// already in term order.
    pub(crate) fn from_sorted(index: MemFile, tot_documents: usize) -> (r: TermIndexer)
        requires
            index.wf(),
            index.spec_len() <= u32::MAX,
            forall|i: int|
                0 <= i < index.spec_len() ==> term_record_wf(#[trigger] index.record(i))
                    && term_text_wf(record_text(index.record(i))),
            forall|i: int, j: int|
                0 <= i < j < index.spec_len() ==> lex_lt(
                    record_text(#[trigger] index.record(i)),
                    record_text(#[trigger] index.record(j)),
                ),
        ensures
            r.wf(),
            r.sorted_mode(),
            r.spec_index() == index,
            r.spec_tot_documents() == tot_documents,
            forall|i: int|
                0 <= i < index.spec_len() ==> r.term_at(i) == record_text(
                    #[trigger] index.record(i),
                ) && r.df_at(i) == record_df(index.record(i)),
    {
        let r = TermIndexer { index, tot_documents, sort_index: Vec::new() };
        proof {
            reveal(TermIndexer::term_at);
            reveal(TermIndexer::df_at);
            assert(r.wf());
        }
        r
    }

    /// Returns the total amount of terms in the term index.
    pub fn len(&self) -> (r: usize)
        ensures
            r == self.spec_len(),
    {
        self.index.len()
    }

    /// Returns `true` if there is no term in the term store.
    pub fn is_empty(&self) -> (r: bool)
        ensures
            r == (self.spec_len() == 0),
    {
        self.index.len() == 0
    }

    /// Returns `true` if the records are stored in term order and no sort
    /// permutation exists.
    pub fn is_sorted(&self) -> (r: bool)
        ensures
            r == self.sorted_mode(),
    {
        self.sort_index.len() == 0
    }

    /// The number of documents the dictionary was built from.
    pub fn total_documents(&self) -> (r: usize)
        ensures
            r == self.spec_tot_documents(),
    {
        self.tot_documents
    }

    pub(crate) fn set_total_documents(&mut self, tot_documents: usize)
        ensures
            final(self).spec_index() == old(self).spec_index(),
            final(self).spec_sort_index() == old(self).spec_sort_index(),
            final(self).spec_tot_documents() == tot_documents,
    {
        self.tot_documents = tot_documents;
    }

    /// Decodes the term with dimension `dimension`.
    pub fn load_term(&self, dimension: usize) -> (r: Option<IndexTerm>)
        requires
            self.wf(),
        ensures
            dimension < self.spec_len() ==> (r matches Some(t) && t.spec_text() == self.term_at(
                dimension as int,
            ) && t.spec_doc_frequency() == self.df_at(dimension as int)),
            dimension >= self.spec_len() ==> r is None,
    {
        if dimension >= self.index.len() {
            return None;
        }
        let storage = if self.sort_index.len() == 0 {
            dimension
        } else {
            self.sort_index[dimension] as usize
        };
        proof {
            reveal(TermIndexer::term_at);
            reveal(TermIndexer::df_at);
            assert(storage == self.storage_pos(dimension as int));
            assert(0 <= self.storage_pos(dimension as int) < self.spec_len());
        }
        match self.index.get(storage) {
            Some(rec) => Some(IndexTerm::decode(rec.as_slice())),
            None => {
                proof {
                    assert(false);
                }
                None
            },
        }
    }

    /// Finds the dimension of `term`: the rank of its text in the
    /// dictionary order. Binary search with one record decode per probe.
    #[verifier::loop_isolation(false)]
    pub fn get_term(&self, term: &[u8]) -> (r: Option<usize>)
        requires
            self.wf(),
        ensures
            r matches Some(i) ==> 0 <= i < self.spec_len() && self.term_at(i as int) == term@,
            r is None ==> !self.has_term(term@),
    {
        let mut left: usize = 0;
        let mut right: usize = self.index.len();
        while left < right
            invariant
                0 <= left <= right <= self.spec_len(),
                forall|i: int| 0 <= i < left ==> lex_lt(#[trigger] self.term_at(i), term@),
                forall|i: int|
                    right <= i < self.spec_len() ==> lex_lt(term@, #[trigger] self.term_at(i)),
            decreases right - left,
        {
            let mid = left + (right - left) / 2;
            let t = match self.load_term(mid) {
                Some(t) => t,
                None => {
                    proof {
                        assert(false);
                    }
                    return None;
                },
            };
            let c = lex_cmp(t.text().as_slice(), term);
            if c == 0 {
                return Some(mid);
            } else if c == -1 {
                proof {
                    assert forall|i: int|
                        0 <= i < mid + 1 implies lex_lt(#[trigger] self.term_at(i), term@) by {
                        if left <= i < mid as int {
                            lemma_lex_transitive(
                                self.term_at(i),
                                self.term_at(mid as int),
                                term@,
                            );
                        }
                    }
                }
                left = mid + 1;
            } else {
                proof {
                    assert forall|i: int|
                        mid <= i < self.spec_len() implies lex_lt(
                        term@,
                        #[trigger] self.term_at(i),
                    ) by {
                        if i > mid as int && i < right {
                            lemma_lex_transitive(term@, self.term_at(mid as int), self.term_at(i));
                        }
                    }
                }
                right = mid;
            }
        }
        proof {
            assert forall|i: int| 0 <= i < self.spec_len() implies self.term_at(i) != term@ by {
                lemma_lex_trichotomy(self.term_at(i), term@);
            }
        }
        None
    }

    /// Finds a term by text, returning the decoded record.
    pub fn find_term(&self, term: &[u8]) -> (r: Option<IndexTerm>)
        requires
            self.wf(),
        ensures
            r matches Some(t) ==> t.spec_text() == term@ && self.has_entry(
                term@,
                t.spec_doc_frequency(),
            ),
            r is None ==> !self.has_term(term@),
    {
        match self.get_term(term) {
            Some(dim) => match self.load_term(dim) {
                Some(t) => {
                    proof {
                        assert(self.term_at(dim as int) == term@ && self.df_at(dim as int)
                            == t.spec_doc_frequency());
                    }
                    Some(t)
                },
                None => {
                    proof {
                        assert(false);
                    }
                    None
                },
            },
            None => None,
        }
    }

    /// Decodes all terms, in dimension order.
    #[verifier::loop_isolation(false)]
    pub fn iter(&self) -> (r: Vec<IndexTerm>)
        requires
            self.wf(),
        ensures
            r@.len() == self.spec_len(),
            forall|i: int|
                0 <= i < r@.len() ==> (#[trigger] r@[i]).spec_text() == self.term_at(i)
                    && r@[i].spec_doc_frequency() == self.df_at(i),
    {
        let n = self.index.len();
        let mut r: Vec<IndexTerm> = Vec::new();
        let mut k: usize = 0;
        while k < n
            invariant
                0 <= k <= n,
                r@.len() == k,
                forall|i: int|
                    0 <= i < k ==> (#[trigger] r@[i]).spec_text() == self.term_at(i)
                        && r@[i].spec_doc_frequency() == self.df_at(i),
            decreases n - k,
        {
            let t = match self.load_term(k) {
                Some(t) => t,
                None => {
                    proof {
                        assert(false);
                    }
                    return r;
                },
            };
            r.push(t);
            k += 1;
        }
        r
    }

    /// Creates the identity sort permutation, enabling `insert_new`. Does
    /// nothing when a permutation already exists.
    #[verifier::loop_isolation(false)]
    pub fn build_cust_sort(&mut self)
        requires
            old(self).wf(),
        ensures
            final(self).wf(),
            final(self).spec_index() == old(self).spec_index(),
            final(self).spec_tot_documents() == old(self).spec_tot_documents(),
            final(self).spec_len() == old(self).spec_len(),
            forall|i: int|
                0 <= i < final(self).spec_len() ==> final(self).term_at(i) == old(self).term_at(i)
                    && final(self).df_at(i) == old(self).df_at(i),
            !old(self).sorted_mode() ==> *final(self) == *old(self),
            old(self).sorted_mode() ==> final(self).spec_sort_index() == Seq::new(
                old(self).spec_len() as nat,
                |i: int| i as u32,
            ),
            old(self).sorted_mode() && old(self).spec_len() > 0 ==> !final(self).sorted_mode(),
    {
        if self.sort_index.len() != 0 {
            return ;
        }
        let n = self.index.len();
        let mut sort_index: Vec<u32> = Vec::new();
        let mut k: usize = 0;
        while k < n
            invariant
                0 <= k <= n,
                n == old(self).spec_len(),
                self == old(self),
                sort_index@.len() == k,
                forall|i: int| 0 <= i < k ==> (#[trigger] sort_index@[i]) == i as u32,
            decreases n - k,
        {
            sort_index.push(k as u32);
            k += 1;
        }
        self.sort_index = sort_index;
        proof {
            reveal(TermIndexer::term_at);
            reveal(TermIndexer::df_at);
            assert(final(self).spec_sort_index() =~= Seq::new(
                old(self).spec_len() as nat,
                |i: int| i as u32,
            ));
            assert forall|i: int| 0 <= i < final(self).spec_len() implies final(self).term_at(i)
                == old(self).term_at(i) && final(self).df_at(i) == old(self).df_at(i) by {
                assert(final(self).storage_pos(i) == i);
            }
        }
    }

    /// Inserts a new term, returning its storage id. Requires a sort
    /// permutation (`build_cust_sort`) and a text not yet present; returns
    /// `None` without one.
    #[verifier::loop_isolation(false)]
    pub fn insert_new(&mut self, term: IndexTerm) -> (r: Option<u32>)
        requires
            old(self).wf(),
            old(self).spec_len() + 1 <= u32::MAX,
            old(self).spec_index().spec_data().len() + 4 + term.spec_text().len() <= u32::MAX,
            !old(self).has_term(term.spec_text()),
            term_text_wf(term.spec_text()),
        ensures
            final(self).wf(),
            old(self).sorted_mode() ==> r is None && *final(self) == *old(self),
            !old(self).sorted_mode() ==> {
                &&& r == Some(old(self).spec_len() as u32)
                &&& final(self).spec_len() == old(self).spec_len() + 1
                &&& final(self).has_entry(term.spec_text(), term.spec_doc_frequency())
                &&& forall|t: Seq<u8>, df: u32|
                    #![trigger final(self).has_entry(t, df)]
                    final(self).has_entry(t, df) <==> (old(self).has_entry(t, df) || (t
                        == term.spec_text() && df == term.spec_doc_frequency()))
            },
    {
        if self.sort_index.len() == 0 {
            return None;
        }
        let n = self.index.len();
        // find the dimension where the new text belongs
        let mut p: usize = 0;
        while p < n
            invariant
                0 <= p <= n,
                self == old(self),
                n == old(self).spec_len(),
                forall|i: int| 0 <= i < p ==> lex_lt(#[trigger] self.term_at(i), term.spec_text()),
            decreases n - p,
        {
            let t = match self.load_term(p) {
                Some(t) => t,
                None => {
                    proof {
                        assert(false);
                    }
                    return None;
                },
            };
            let c = lex_cmp(t.text().as_slice(), term.text().as_slice());
            if c == 1 {
                break ;
            }
            proof {
                if c == 0 {
                    assert(self.term_at(p as int) == term.spec_text());
                    assert(false);
                }
            }
            p += 1;
        }
        proof {
            assert(p < old(self).spec_len() ==> lex_lt(term.spec_text(), old(self).term_at(
                p as int,
            )));
            assert forall|i: int|
                p <= i < old(self).spec_len() implies lex_lt(
                term.spec_text(),
                #[trigger] old(self).term_at(i),
            ) by {
                if i > p {
                    lemma_lex_transitive(
                        term.spec_text(),
                        old(self).term_at(p as int),
                        old(self).term_at(i),
                    );
                }
            }
        }
        // encode and append the record
        let mut enc: Vec<u8> = Vec::new();
        crate::traits::push_u32_le(&mut enc, term.doc_frequency());
        let mut text_bytes = vstd::slice::slice_to_vec(term.text().as_slice());
        enc.append(&mut text_bytes);
        proof {
            assert(enc@ =~= term.enc());
            crate::term_store::item::lemma_term_record_round_trip(term);
        }
        let id = self.index.insert(enc.as_slice()) as u32;
        let ghost mid = *self;
        proof {
            assert(mid.spec_index().records() == old(self).spec_index().records().push(enc@));
            assert(mid.spec_index().records()[id as int] == enc@);
            assert(mid.spec_index().record(id as int) == enc@);
            assert forall|i: int| 0 <= i < old(self).spec_len() implies mid.spec_index().record(i)
                == old(self).spec_index().record(i) by {
                assert(mid.spec_index().records()[i] == old(self).spec_index().records().push(
                    enc@,
                )[i]);
                assert(mid.spec_index().records()[i] == old(self).spec_index().records()[i]);
                assert(old(self).spec_index().records()[i] == old(self).spec_index().record(i));
                assert(mid.spec_index().records()[i] == mid.spec_index().record(i));
            }
        }
        let ghost old_sort = self.sort_index@;
        self.sort_index.insert(p, id);
        proof {
            reveal(TermIndexer::term_at);
            reveal(TermIndexer::df_at);
            old_sort.insert_ensures(p as int, id);
            let fs = *self;
            let os = *old(self);
            let text = term.spec_text();
            let df = term.spec_doc_frequency();
            assert(fs.spec_sort_index() == old_sort.insert(p as int, id));
            assert(!fs.sorted_mode());
            assert(fs.spec_len() == os.spec_len() + 1);
            // where each dimension of the new dictionary comes from
            assert forall|i: int| 0 <= i < fs.spec_len() implies (if i < p {
                fs.term_at(i) == os.term_at(i) && fs.df_at(i) == os.df_at(i)
            } else if i == p {
                fs.term_at(i) == text && fs.df_at(i) == df
            } else {
                fs.term_at(i) == os.term_at(i - 1) && fs.df_at(i) == os.df_at(i - 1)
            }) by {
                if i < p {
                    assert(fs.spec_sort_index()[i] == old_sort[i]);
                    assert(fs.storage_pos(i) == os.storage_pos(i));
                    assert(fs.spec_index().record(fs.storage_pos(i)) == os.spec_index().record(
                        os.storage_pos(i),
                    ));
                } else if i == p {
                    assert(fs.spec_sort_index()[i] == id);
                    assert(fs.spec_index().record(id as int) == term.enc());
                } else {
                    assert(fs.spec_sort_index()[i] == old_sort[i - 1]);
                    assert(fs.storage_pos(i) == os.storage_pos(i - 1));
                    assert(fs.spec_index().record(fs.storage_pos(i)) == os.spec_index().record(
                        os.storage_pos(i - 1),
                    ));
                }
            }
            assert(fs.wf()) by {
                assert forall|i: int, j: int|
                    0 <= i < j < fs.spec_len() implies lex_lt(
                    #[trigger] fs.term_at(i),
                    #[trigger] fs.term_at(j),
                ) by {
                    if j < p {
                    } else if j == p {
                        assert(lex_lt(os.term_at(i), text));
                    } else if i == p {
                        assert(lex_lt(text, os.term_at(j - 1)));
                    } else if i < p {
                        assert(lex_lt(os.term_at(i), os.term_at(j - 1)));
                    } else {
                        assert(lex_lt(os.term_at(i - 1), os.term_at(j - 1)));
                    }
                }
            }
            assert(fs.term_at(p as int) == text && fs.df_at(p as int) == df);
            assert(fs.has_entry(text, df));
            assert forall|t: Seq<u8>, d: u32|
                #![trigger fs.has_entry(t, d)]
                fs.has_entry(t, d) <==> (os.has_entry(t, d) || (t == text && d == df)) by {
                if fs.has_entry(t, d) {
                    let i = choose|i: int|
                        0 <= i < fs.spec_len() && fs.term_at(i) == t && fs.df_at(i) == d;
                    if i < p {
                        assert(os.term_at(i) == t && os.df_at(i) == d);
                    } else if i > p {
                        assert(os.term_at(i - 1) == t && os.df_at(i - 1) == d);
                    }
                }
                if os.has_entry(t, d) {
                    let i = choose|i: int|
                        0 <= i < os.spec_len() && os.term_at(i) == t && os.df_at(i) == d;
                    if i < p {
                        assert(fs.term_at(i) == t && fs.df_at(i) == d);
                    } else {
                        assert(fs.term_at(i + 1) == t && fs.df_at(i + 1) == d);
                    }
                }
                if t == text && d == df {
                    assert(fs.term_at(p as int) == t && fs.df_at(p as int) == d);
                }
            }
        }
        Some(id)
    }

    /// The exact serialized form of the dictionary.
    pub open spec fn spec_encoding(&self) -> Seq<u8> {
        self.spec_index().spec_encoding() + spec_u64_to_le_bytes(self.spec_tot_documents() as u64)
            + spec_u64_to_le_bytes(self.spec_sort_index().len() as u64) + u32s_le_bytes(
            self.spec_sort_index(),
        )
    }

    /// Serializes the dictionary.
    pub fn encode(&self) -> (r: Vec<u8>)
        ensures
            r@ == self.spec_encoding(),
    {
        let mut out = self.index.encode();
        push_u64_le(&mut out, self.tot_documents as u64);
        push_u64_le(&mut out, self.sort_index.len() as u64);
        push_u32s_le(&mut out, &self.sort_index);
        proof {
            assert(out@ =~= self.spec_encoding());
        }
        out
    }

    /// The storage position of the term with dimension `i`, read directly
    /// from serialized bytes: `i` itself without a permutation, else the
    /// permutation slot `i`.
    pub open spec fn bytes_storage(data: Seq<u8>, pos: int, mend: int, sn: int, i: int) -> int {
        if sn == 0 {
            i
        } else {
            spec_u32_from_le_bytes(data.subrange(mend + 16 + 4 * i, mend + 16 + 4 * i + 4)) as int
        }
    }

    /// The record `i` of the serialized record store at `pos`.
    pub open spec fn bytes_record(data: Seq<u8>, pos: int, i: int) -> Seq<u8> {
        let n = spec_u64_from_le_bytes(data.subrange(pos, pos + 8)) as int;
        let dlen = spec_u64_from_le_bytes(
            data.subrange(pos + 8 + 4 * n, pos + 16 + 4 * n),
        ) as int;
        let off = spec_u32_from_le_bytes(
            data.subrange(pos + 8 + 4 * i, pos + 8 + 4 * i + 4),
        ) as int;
        let rec_end = if i + 1 < n {
            spec_u32_from_le_bytes(
                data.subrange(pos + 8 + 4 * (i + 1), pos + 8 + 4 * (i + 1) + 4),
            ) as int
        } else {
            dlen
        };
        let dstart = pos + 16 + 4 * n;
        data.subrange(dstart + off, dstart + rec_end)
    }

    /// Where the serialized dictionary at `pos` ends: past the record
    /// store, the two counters, and the sort permutation.
    pub open spec fn bytes_end(data: Seq<u8>, pos: int) -> int {
        let mend = MemFile::parse_end(data, pos);
        let sn = spec_u64_from_le_bytes(data.subrange(mend + 8, mend + 16)) as int;
        mend + 16 + 4 * sn
    }

    /// A well-formed dictionary is encoded at `pos`: a sound record store,
    /// in-range counters and permutation, every record carrying its
    /// doc-frequency prefix, and term texts ascending in dimension order.
    pub open spec fn bytes_ok(data: Seq<u8>, pos: int) -> bool {
        let n = spec_u64_from_le_bytes(data.subrange(pos, pos + 8)) as int;
        let mend = MemFile::parse_end(data, pos);
        let tot = spec_u64_from_le_bytes(data.subrange(mend, mend + 8));
        let sn = spec_u64_from_le_bytes(data.subrange(mend + 8, mend + 16)) as int;
        &&& MemFile::parse_ok(data, pos)
        &&& n <= u32::MAX
        &&& mend + 16 + 4 * sn <= data.len()
        &&& tot <= usize::MAX
        &&& (sn == 0 || sn == n)
        &&& (forall|i: int|
            0 <= i < sn ==> 0 <= #[trigger] Self::bytes_storage(data, pos, mend, sn, i) < n)
        &&& (forall|i: int|
            0 <= i < n ==> term_record_wf(#[trigger] Self::bytes_record(data, pos, i))
                && term_text_wf(record_text(Self::bytes_record(data, pos, i))))
        &&& (forall|i: int|
            0 < i < n ==> lex_lt(
                record_text(
                    Self::bytes_record(
                        data,
                        pos,
                        Self::bytes_storage(data, pos, mend, sn, i - 1),
                    ),
                ),
                record_text(
                    #[trigger] Self::bytes_record(
                        data,
                        pos,
                        Self::bytes_storage(data, pos, mend, sn, i),
                    ),
                ),
            ))
    }

    /// Deserializes a dictionary, validating every well-formedness
    /// condition: record shape, permutation bounds, and strict term order.
    #[verifier::loop_isolation(false)]
    #[verifier::rlimit(100)]
    #[verifier::spinoff_prover]
    pub fn decode(data: &[u8], pos: usize) -> (r: Result<(TermIndexer, usize), Error>)
        ensures
            r matches Ok(p) ==> p.0.wf() && pos <= p.1 <= data@.len() && p.0.spec_encoding()
                == data@.subrange(pos as int, p.1 as int) && Self::bytes_ok(data@, pos as int)
                && p.1 == Self::bytes_end(data@, pos as int),
            r is Err ==> !Self::bytes_ok(data@, pos as int),
    {
        let len = data.len();
        let (index, mut cur) = match MemFile::decode(data, pos) {
            Ok(p) => p,
            Err(e) => {
                return Err(e);
            },
        };
        let ghost bn = spec_u64_from_le_bytes(data@.subrange(pos as int, pos as int + 8)) as int;
        proof {
            assert(index.spec_len() == bn);
        }
        let n = index.len();
        if n > u32::MAX as usize {
            return Err(Error::Decode);
        }
        if !(len >= 16 && cur <= len - 16) {
            proof {
                if Self::bytes_ok(data@, pos as int) {
                    assert(MemFile::parse_end(data@, pos as int) + 16 <= data@.len());
                }
            }
            return Err(Error::Decode);
        }
        let tot64 = read_u64_le(data, cur);
        if tot64 > usize::MAX as u64 {
            return Err(Error::Decode);
        }
        let sn64 = read_u64_le(data, cur + 8);
        let ghost mem_end = cur as int;
        cur = cur + 16;
        if sn64 != 0 && sn64 != n as u64 {
            return Err(Error::Decode);
        }
        let sn = sn64 as usize;
        if sn > (len - cur) / 4 {
            proof {
                if Self::bytes_ok(data@, pos as int) {
                    assert(mem_end + 16 + 4 * (sn as int) <= len);
                    assert((sn as int) <= (len - (mem_end + 16)) / 4) by (nonlinear_arith)
                        requires
                            4 * (sn as int) <= len - (mem_end + 16),
                    ;
                }
            }
            return Err(Error::Decode);
        }
        let sort_index = read_u32s_le(data, cur, sn);
        let ghost sort_start = cur as int;
        cur = cur + 4 * sn;
        // validate the permutation entries
        let mut k: usize = 0;
        while k < sn
            invariant
                0 <= k <= sn,
                sn == sort_index@.len(),
                n == index.spec_len(),
                forall|i: int| 0 <= i < k ==> (#[trigger] sort_index@[i]) < n,
            decreases sn - k,
        {
            if sort_index[k] as usize >= n {
                proof {
                    if Self::bytes_ok(data@, pos as int) {
                        assert(sort_index@[k as int] == spec_u32_from_le_bytes(
                            data@.subrange(
                                sort_start + 4 * k,
                                sort_start + 4 * k + 4,
                            ),
                        ));
                        assert(Self::bytes_storage(data@, pos as int, mem_end, sn as int, k as int)
                            == sort_index@[k as int] as int);
                        assert(Self::bytes_storage(data@, pos as int, mem_end, sn as int, k as int)
                            < bn);
                    }
                }
                return Err(Error::Decode);
            }
            k += 1;
        }
        // validate record shape: the doc-frequency prefix and a valid text
        let mut k2: usize = 0;
        while k2 < n
            invariant
                0 <= k2 <= n,
                n == index.spec_len(),
                index.wf(),
                forall|i: int|
                    0 <= i < k2 ==> term_record_wf(#[trigger] index.record(i)) && term_text_wf(
                        record_text(index.record(i)),
                    ),
            decreases n - k2,
        {
            match index.get(k2) {
                Some(rec) => {
                    if rec.len() < 5 {
                        proof {
                            if Self::bytes_ok(data@, pos as int) {
                                lemma_records_from_bytes(data@, pos as int, index, mem_end);
                                assert(term_text_wf(record_text(Self::bytes_record(
                                    data@,
                                    pos as int,
                                    k2 as int,
                                ))));
                                assert(record_text(index.record(k2 as int)).len() < 1);
                            }
                        }
                        return Err(Error::Decode);
                    }
                    let mut b: usize = 4;
                    while b < rec.len()
                        invariant
                            4 <= b <= rec@.len(),
                            rec@ == index.record(k2 as int),
                            5 <= rec@.len(),
                            forall|x: int| 4 <= x < b ==> (#[trigger] rec@[x]) != 0,
                        decreases rec@.len() - b,
                    {
                        if rec[b] == 0 {
                            proof {
                                if Self::bytes_ok(data@, pos as int) {
                                    lemma_records_from_bytes(
                                        data@,
                                        pos as int,
                                        index,
                                        mem_end,
                                    );
                                    assert(term_text_wf(record_text(Self::bytes_record(
                                        data@,
                                        pos as int,
                                        k2 as int,
                                    ))));
                                    assert(record_text(index.record(k2 as int))[b as int - 4]
                                        == 0);
                                }
                            }
                            return Err(Error::Decode);
                        }
                        b += 1;
                    }
                    proof {
                        assert(term_text_wf(record_text(index.record(k2 as int)))) by {
                            let text = record_text(index.record(k2 as int));
                            assert(text.len() >= 1);
                            assert forall|x: int| 0 <= x < text.len() implies (
                            #[trigger] text[x]) != 0 by {
                                assert(rec@[x + 4] != 0);
                            }
                        }
                    }
                },
                None => {
                    proof {
                        assert(false);
                    }
                    return Err(Error::Decode);
                },
            }
            k2 += 1;
        }
        let t = TermIndexer { index, tot_documents: tot64 as usize, sort_index };
        // validate strict term order, comparing adjacent dimensions
        let mut k3: usize = 1;
        while k3 < n
            invariant
                1 <= k3 <= n || (n == 0 && k3 == 1),
                n == t.spec_len(),
                t.spec_index().wf(),
                t.spec_len() <= u32::MAX,
                forall|i: int|
                    0 <= i < t.spec_len() ==> term_record_wf(#[trigger] t.spec_index().record(i)),
                !t.sorted_mode() ==> t.spec_sort_index().len() == t.spec_len(),
                !t.sorted_mode() ==> forall|i: int|
                    0 <= i < t.spec_len() ==> 0 <= (#[trigger] t.spec_sort_index()[i])
                        < t.spec_len(),
                forall|i: int| 0 < i < k3 ==> lex_lt(t.term_at(i - 1), #[trigger] t.term_at(i)),
            decreases n - k3,
        {
            let prev = match t.load_term_unchecked(k3 - 1) {
                Some(x) => x,
                None => {
                    proof {
                        assert(false);
                    }
                    return Err(Error::Decode);
                },
            };
            let here = match t.load_term_unchecked(k3) {
                Some(x) => x,
                None => {
                    proof {
                        assert(false);
                    }
                    return Err(Error::Decode);
                },
            };
            let c = lex_cmp(prev.text().as_slice(), here.text().as_slice());
            if c != -1 {
                proof {
                    if Self::bytes_ok(data@, pos as int) {
                        reveal(TermIndexer::term_at);
                        lemma_records_from_bytes(data@, pos as int, t.spec_index(), mem_end);
                        let sp_prev = t.storage_pos(k3 as int - 1);
                        let sp_here = t.storage_pos(k3 as int);
                        assert(sp_prev == Self::bytes_storage(
                            data@,
                            pos as int,
                            mem_end,
                            sn as int,
                            k3 as int - 1,
                        ) && sp_here == Self::bytes_storage(
                            data@,
                            pos as int,
                            mem_end,
                            sn as int,
                            k3 as int,
                        )) by {
                            if sn != 0 {
                                assert(t.spec_sort_index()[k3 as int - 1]
                                    == spec_u32_from_le_bytes(
                                    data@.subrange(
                                        sort_start + 4 * (k3 as int - 1),
                                        sort_start + 4 * (k3 as int - 1) + 4,
                                    ),
                                ));
                                assert(t.spec_sort_index()[k3 as int] == spec_u32_from_le_bytes(
                                    data@.subrange(
                                        sort_start + 4 * k3,
                                        sort_start + 4 * k3 + 4,
                                    ),
                                ));
                            }
                        }
                        assert(t.term_at(k3 as int - 1) == record_text(
                            Self::bytes_record(data@, pos as int, sp_prev),
                        ));
                        assert(t.term_at(k3 as int) == record_text(
                            Self::bytes_record(data@, pos as int, sp_here),
                        ));
                        assert(lex_lt(t.term_at(k3 as int - 1), t.term_at(k3 as int)));
                        lemma_lex_trichotomy(t.term_at(k3 as int - 1), t.term_at(k3 as int));
                    }
                }
                return Err(Error::Decode);
            }
            k3 += 1;
        }
        proof {
            lemma_adjacent_ascending(&t);
            assert(t.wf());
            // the bytes spell out exactly this well-formed dictionary
            assert(Self::bytes_ok(data@, pos as int)) by {
                reveal(TermIndexer::term_at);
                lemma_records_from_bytes(data@, pos as int, t.spec_index(), mem_end);
                assert forall|i: int|
                    0 <= i < sn implies 0 <= #[trigger] Self::bytes_storage(
                    data@,
                    pos as int,
                    mem_end,
                    sn as int,
                    i,
                ) < n as int by {
                    assert(sort_index@[i] == spec_u32_from_le_bytes(
                        data@.subrange(sort_start + 4 * i, sort_start + 4 * i + 4),
                    ));
                    assert(sort_index@[i] < n);
                }
                assert forall|i: int|
                    0 <= i < n implies term_record_wf(
                    #[trigger] Self::bytes_record(data@, pos as int, i),
                ) && term_text_wf(record_text(Self::bytes_record(data@, pos as int, i))) by {
                    assert(term_record_wf(t.spec_index().record(i)) && term_text_wf(
                        record_text(t.spec_index().record(i)),
                    ));
                    assert(t.spec_index().record(i) == Self::bytes_record(data@, pos as int, i));
                }
                assert forall|i: int|
                    0 < i < n implies lex_lt(
                    record_text(
                        Self::bytes_record(
                            data@,
                            pos as int,
                            Self::bytes_storage(data@, pos as int, mem_end, sn as int, i - 1),
                        ),
                    ),
                    record_text(
                        #[trigger] Self::bytes_record(
                            data@,
                            pos as int,
                            Self::bytes_storage(data@, pos as int, mem_end, sn as int, i),
                        ),
                    ),
                ) by {
                    let sp_prev = t.storage_pos(i - 1);
                    let sp_here = t.storage_pos(i);
                    assert(sp_prev == Self::bytes_storage(
                        data@,
                        pos as int,
                        mem_end,
                        sn as int,
                        i - 1,
                    ) && sp_here == Self::bytes_storage(
                        data@,
                        pos as int,
                        mem_end,
                        sn as int,
                        i,
                    )) by {
                        if sn != 0 {
                            assert(t.spec_sort_index()[i - 1] == spec_u32_from_le_bytes(
                                data@.subrange(
                                    sort_start + 4 * (i - 1),
                                    sort_start + 4 * (i - 1) + 4,
                                ),
                            ));
                            assert(t.spec_sort_index()[i] == spec_u32_from_le_bytes(
                                data@.subrange(sort_start + 4 * i, sort_start + 4 * i + 4),
                            ));
                        }
                    }
                    assert(lex_lt(t.term_at(i - 1), t.term_at(i)));
                    assert(t.term_at(i - 1) == record_text(
                        Self::bytes_record(data@, pos as int, sp_prev),
                    ));
                    assert(t.term_at(i) == record_text(
                        Self::bytes_record(data@, pos as int, sp_here),
                    ));
                }
            }
            vstd::bytes::lemma_auto_spec_u64_to_from_le_bytes();
            assert(spec_u64_to_le_bytes(tot64) == data@.subrange(mem_end, mem_end + 8)) by {
                assert(tot64 == spec_u64_from_le_bytes(data@.subrange(mem_end, mem_end + 8)));
                assert(data@.subrange(mem_end, mem_end + 8).len() == 8);
            }
            assert(spec_u64_to_le_bytes(sn64) == data@.subrange(mem_end + 8, mem_end + 16)) by {
                assert(sn64 == spec_u64_from_le_bytes(data@.subrange(mem_end + 8, mem_end + 16)));
                assert(data@.subrange(mem_end + 8, mem_end + 16).len() == 8);
            }
            assert(t.spec_tot_documents() as u64 == tot64);
            assert(t.spec_sort_index().len() as u64 == sn64);
            assert(u32s_le_bytes(t.spec_sort_index()) == data@.subrange(
                sort_start,
                sort_start + 4 * sn,
            ));
            assert(t.spec_index().spec_encoding() == data@.subrange(pos as int, mem_end));
            assert(t.spec_encoding() =~= data@.subrange(pos as int, cur as int));
        }
        Ok((t, cur))
    }

    /// `load_term` over a dictionary whose term order has not been checked
    /// yet; used while validating a deserialized dictionary.
    fn load_term_unchecked(&self, dimension: usize) -> (r: Option<IndexTerm>)
        requires
            self.spec_index().wf(),
            forall|i: int|
                0 <= i < self.spec_len() ==> term_record_wf(#[trigger] self.spec_index().record(i)),
            !self.sorted_mode() ==> self.spec_sort_index().len() == self.spec_len(),
            !self.sorted_mode() ==> forall|i: int|
                0 <= i < self.spec_len() ==> 0 <= (#[trigger] self.spec_sort_index()[i])
                    < self.spec_len(),
        ensures
            dimension < self.spec_len() ==> (r matches Some(t) && t.spec_text() == self.term_at(
                dimension as int,
            ) && t.spec_doc_frequency() == self.df_at(dimension as int)),
            dimension >= self.spec_len() ==> r is None,
    {
        if dimension >= self.index.len() {
            return None;
        }
        let storage = if self.sort_index.len() == 0 {
            dimension
        } else {
            self.sort_index[dimension] as usize
        };
        proof {
            reveal(TermIndexer::term_at);
            reveal(TermIndexer::df_at);
            assert(storage == self.storage_pos(dimension as int));
            assert(0 <= self.storage_pos(dimension as int) < self.spec_len());
        }
        match self.index.get(storage) {
            Some(rec) => Some(IndexTerm::decode(rec.as_slice())),
            None => {
                proof {
                    assert(false);
                }
                None
            },
        }
    }
}

/// A chain of adjacent strict comparisons is a strict order on all pairs.
proof fn lemma_adjacent_ascending(t: &TermIndexer)
    requires
        forall|i: int| 0 < i < t.spec_len() ==> lex_lt(t.term_at(i - 1), #[trigger] t.term_at(i)),
    ensures
        forall|i: int, j: int|
            0 <= i < j < t.spec_len() ==> lex_lt(#[trigger] t.term_at(i), #[trigger] t.term_at(j)),
{
    assert forall|i: int, j: int|
        0 <= i < j < t.spec_len() implies lex_lt(#[trigger] t.term_at(i), #[trigger] t.term_at(j)) by {
        lemma_chain(t, i, j);
    }
}

proof fn lemma_chain(t: &TermIndexer, i: int, j: int)
    requires
        forall|k: int| 0 < k < t.spec_len() ==> lex_lt(t.term_at(k - 1), #[trigger] t.term_at(k)),
        0 <= i < j < t.spec_len(),
    ensures
        lex_lt(t.term_at(i), t.term_at(j)),
    decreases j - i,
{
    if i + 1 == j {
        assert(lex_lt(t.term_at(j - 1), t.term_at(j)));
    } else {
        lemma_chain(t, i, j - 1);
        assert(lex_lt(t.term_at(j - 1), t.term_at(j)));
        lemma_lex_transitive(t.term_at(i), t.term_at(j - 1), t.term_at(j));
    }
}

/// The records of a deserialized store are the records the bytes spell.
#[verifier::rlimit(100)]
#[verifier::spinoff_prover]
pub proof fn lemma_records_from_bytes(data: Seq<u8>, pos: int, m: MemFile, p1: int)
    requires
        MemFile::parse_ok(data, pos),
        ({
            let n = spec_u64_from_le_bytes(data.subrange(pos, pos + 8)) as int;
            &&& p1 == MemFile::parse_end(data, pos)
            &&& m.wf()
            &&& m.spec_offsets().len() == n
            &&& (forall|i: int|
                0 <= i < n ==> (#[trigger] m.spec_offsets()[i]) == spec_u32_from_le_bytes(
                    data.subrange(pos + 8 + 4 * i, pos + 8 + 4 * i + 4),
                ))
            &&& m.spec_data() == data.subrange(pos + 16 + 4 * n, p1)
        }),
    ensures
        forall|i: int|
            0 <= i < m.spec_len() ==> #[trigger] m.record(i) == TermIndexer::bytes_record(
                data,
                pos,
                i,
            ),
{
    let n = spec_u64_from_le_bytes(data.subrange(pos, pos + 8)) as int;
    let dlen = spec_u64_from_le_bytes(data.subrange(pos + 8 + 4 * n, pos + 16 + 4 * n)) as int;
    assert(p1 == pos + 16 + 4 * n + dlen);
    assert(m.spec_data().len() == dlen);
    assert forall|i: int|
        0 <= i < m.spec_len() implies #[trigger] m.record(i) == TermIndexer::bytes_record(
        data,
        pos,
        i,
    ) by {
        let off = m.spec_offsets()[i] as int;
        let endv = if i + 1 < n {
            m.spec_offsets()[i + 1] as int
        } else {
            dlen
        };
        assert(m.record_end(i) == endv);
        assert(off <= m.spec_data().len());
        assert(endv <= m.spec_data().len()) by {
            if i + 1 < n {
                assert(m.spec_offsets()[i + 1] <= m.spec_data().len());
            }
        }
        assert(m.record(i) =~= data.subrange(pos + 16 + 4 * n + off, pos + 16 + 4 * n + endv));
        assert(TermIndexer::bytes_record(data, pos, i) == data.subrange(
            pos + 16 + 4 * n + off,
            pos + 16 + 4 * n + endv,
        ));
    }
}

/// Two dimensions with the same text are the same dimension.
pub proof fn lemma_rank_unique(t: &TermIndexer, i: int, j: int)
    requires
        t.wf(),
        0 <= i < t.spec_len(),
        0 <= j < t.spec_len(),
        t.term_at(i) == t.term_at(j),
    ensures
        i == j,
{
    if i < j {
        assert(lex_lt(t.term_at(i), t.term_at(j)));
        lemma_lex_trichotomy(t.term_at(i), t.term_at(j));
    } else if j < i {
        assert(lex_lt(t.term_at(j), t.term_at(i)));
        lemma_lex_trichotomy(t.term_at(j), t.term_at(i));
    }
}

/// Terms come out in strictly ascending text order: directly by storage
/// position when no sort permutation exists, and in the permutation's
/// order otherwise — the permutation maps ranks to storage positions.
pub proof fn lemma_term_order(t: &TermIndexer, i: int, j: int)
    requires
        t.wf(),
        0 <= i < j < t.spec_len(),
    ensures
        lex_lt(t.term_at(i), t.term_at(j)),
{
}

} // verus!