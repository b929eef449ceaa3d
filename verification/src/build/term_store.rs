//! Term interning and frequency counting during an index build.
//!
//! The builder keeps the known terms as a list sorted by text, so interning
//! is a binary search and the final dimension of a term — its rank in text
//! order — is simply its position in the list. Insertion ids are handed out
//! in arrival order; `build_order_map` reads off the id-to-dimension
//! mapping. Document frequencies are counted per insertion id, term
//! frequencies per `(insertion id, document id)` pair.

use vstd::hash_map::HashMapWithView;
use vstd::prelude::*;
use vstd::set_lib::{lemma_int_range, lemma_len_subset, set_int_range};

use crate::lex::{lemma_lex_transitive, lemma_lex_trichotomy, lex_cmp, lex_lt};
use crate::term_store::item::term_text_wf;

verus! {

/// The key under which the frequency of term `id` in document `doc` is
/// counted.
pub open spec fn spec_freq_key(id: u32, doc: u32) -> u64 {
    ((id as int) * 0x1_0000_0000 + (doc as int)) as u64
}

/// The id of the first entry with text `t` (`0` when absent).
pub open spec fn id_in_entries(s: Seq<(Vec<u8>, u32)>, t: Seq<u8>) -> u32
    decreases s.len(),
{
    if s.len() == 0 {
        0
    } else if s[0].0@ == t {
        s[0].1
    } else {
        id_in_entries(s.drop_first(), t)
    }
}

/// When text `t` first occurs at position `k`, `id_in_entries` reads off
/// that entry's id.
pub proof fn lemma_id_in_entries_at(s: Seq<(Vec<u8>, u32)>, k: int)
    requires
        0 <= k < s.len(),
        forall|i: int| 0 <= i < k ==> (#[trigger] s[i]).0@ != s[k].0@,
    ensures
        id_in_entries(s, s[k].0@) == s[k].1,
    decreases k,
{
    if k == 0 {
    } else {
        assert(s[0].0@ != s[k].0@);
        assert forall|i: int|
            0 <= i < k - 1 implies (#[trigger] s.drop_first()[i]).0@ != s.drop_first()[k - 1].0@ by {
            assert(s.drop_first()[i] == s[i + 1]);
            assert(s.drop_first()[k - 1] == s[k]);
        }
        lemma_id_in_entries_at(s.drop_first(), k - 1);
        assert(s.drop_first()[k - 1] == s[k]);
    }
}

/// In a dictionary with unique texts, the entry at any position `k` is the
/// one `id_of` reads.
pub proof fn lemma_id_at(b: &TermStoreBuilder, k: int)
    requires
        b.wf(),
        0 <= k < b.spec_len(),
    ensures
        b.id_of(b.spec_terms()[k].0@) == b.spec_terms()[k].1,
{
    assert forall|i: int| 0 <= i < k implies (#[trigger] b.spec_terms()[i]).0@
        != b.spec_terms()[k].0@ by {
        assert(lex_lt(b.spec_terms()[i].0@, b.spec_terms()[k].0@));
        lemma_lex_trichotomy(b.spec_terms()[i].0@, b.spec_terms()[k].0@);
    }
    lemma_id_in_entries_at(b.spec_terms(), k);
}

/// Packed keys are unique per `(id, doc)` pair.
pub proof fn lemma_freq_key_injective(a: u32, b: u32, c: u32, d: u32)
    requires
        spec_freq_key(a, b) == spec_freq_key(c, d),
    ensures
        a == c && b == d,
{
    assert((a as int) * 0x1_0000_0000 + (b as int) < 0x1_0000_0000_0000_0000
        && (c as int) * 0x1_0000_0000 + (d as int) < 0x1_0000_0000_0000_0000)
        by (nonlinear_arith)
        requires
            a <= 0xffff_ffffu32 && b <= 0xffff_ffffu32 && c <= 0xffff_ffffu32 && d
                <= 0xffff_ffffu32,
    ;
    assert((a as int) * 0x1_0000_0000 + (b as int) == (c as int) * 0x1_0000_0000 + (d as int));
    assert(a == c && b == d) by (nonlinear_arith)
        requires
            (a as int) * 0x1_0000_0000 + (b as int) == (c as int) * 0x1_0000_0000 + (d as int),
            a <= 0xffff_ffffu32 && b <= 0xffff_ffffu32 && c <= 0xffff_ffffu32 && d
                <= 0xffff_ffffu32,
    ;
}

/// Builds a new term storage.
pub struct TermStoreBuilder {
    terms: Vec<(Vec<u8>, u32)>,
    doc_freq: Vec<u32>,
    term_freq: HashMapWithView<u64, u32>,
}

impl TermStoreBuilder {
    pub closed spec fn spec_terms(&self) -> Seq<(Vec<u8>, u32)> {
        self.terms@
    }

    pub closed spec fn spec_doc_freq(&self) -> Seq<u32> {
        self.doc_freq@
    }

    pub closed spec fn spec_term_freq(&self) -> Map<u64, u32> {
        self.term_freq@
    }

    /// Number of distinct terms seen so far.
    pub open spec fn spec_len(&self) -> int {
        self.spec_terms().len() as int
    }

    /// Whether some term has text `t`.
    pub open spec fn has_text(&self, t: Seq<u8>) -> bool {
        exists|k: int| 0 <= k < self.spec_len() && (#[trigger] self.spec_terms()[k]).0@ == t
    }

    /// The insertion id of the term with text `t` (meaningful when present).
    pub open spec fn id_of(&self, t: Seq<u8>) -> u32 {
        id_in_entries(self.spec_terms(), t)
    }

    /// The final dimension of the term with insertion id `id`: its rank in
    /// text order (meaningful when the id is valid).
    pub open spec fn dim_of(&self, id: u32) -> int {
        choose|k: int| 0 <= k < self.spec_len() && (#[trigger] self.spec_terms()[k]).1 == id
    }

    /// Well-formed: texts valid and strictly ascending (hence unique),
    /// insertion ids a permutation of `0..len`, one doc-frequency counter
    /// per term.
    pub open spec fn wf(&self) -> bool {
        &&& self.spec_len() <= u32::MAX
        &&& forall|k: int|
            0 <= k < self.spec_len() ==> term_text_wf((#[trigger] self.spec_terms()[k]).0@)
        &&& forall|k: int, l: int|
            0 <= k < l < self.spec_len() ==> lex_lt(
                (#[trigger] self.spec_terms()[k]).0@,
                (#[trigger] self.spec_terms()[l]).0@,
            )
        &&& forall|k: int|
            0 <= k < self.spec_len() ==> (#[trigger] self.spec_terms()[k]).1 < self.spec_len()
        &&& forall|k: int, l: int|
            0 <= k < l < self.spec_len() ==> (#[trigger] self.spec_terms()[k]).1 != (
            #[trigger] self.spec_terms()[l]).1
        &&& self.spec_doc_freq().len() == self.spec_len()
    }

    pub fn new() -> (r: TermStoreBuilder)
        ensures
            r.wf(),
            r.spec_len() == 0,
            r.spec_term_freq() == Map::<u64, u32>::empty(),
    {
        broadcast use vstd::std_specs::hash::axiom_u64_obeys_hash_table_key_model;

        TermStoreBuilder {
            terms: Vec::new(),
            doc_freq: Vec::new(),
            term_freq: HashMapWithView::new(),
        }
    }

    /// Returns the insertion id of `term`, or `None` if it was never seen.
    #[verifier::loop_isolation(false)]
    pub fn get_term_id(&self, term: &[u8]) -> (r: Option<u32>)
        requires
            self.wf(),
        ensures
            r matches Some(id) ==> self.has_text(term@) && id == self.id_of(term@),
            r is None ==> !self.has_text(term@),
    {
        let mut left: usize = 0;
        let mut right: usize = self.terms.len();
        while left < right
            invariant
                0 <= left <= right <= self.spec_len(),
                forall|k: int| 0 <= k < left ==> lex_lt((#[trigger] self.spec_terms()[k]).0@, term@),
                forall|k: int|
                    right <= k < self.spec_len() ==> lex_lt(
                        term@,
                        (#[trigger] self.spec_terms()[k]).0@,
                    ),
            decreases right - left,
        {
            let mid = left + (right - left) / 2;
            let c = lex_cmp(self.terms[mid].0.as_slice(), term);
            if c == 0 {
                let id = self.terms[mid].1;
                proof {
                    assert(self.spec_terms()[mid as int].0@ == term@);
                    assert(self.has_text(term@));
                    lemma_id_at(self, mid as int);
                }
                return Some(id);
            } else if c == -1 {
                proof {
                    assert forall|k: int|
                        0 <= k < mid + 1 implies lex_lt(
                        (#[trigger] self.spec_terms()[k]).0@,
                        term@,
                    ) by {
                        if left <= k < mid as int {
                            lemma_lex_transitive(
                                self.spec_terms()[k].0@,
                                self.spec_terms()[mid as int].0@,
                                term@,
                            );
                        }
                    }
                }
                left = mid + 1;
            } else {
                proof {
                    assert forall|k: int|
                        mid <= k < self.spec_len() implies lex_lt(
                        term@,
                        (#[trigger] self.spec_terms()[k]).0@,
                    ) by {
                        if (mid as int) < k < right {
                            lemma_lex_transitive(
                                term@,
                                self.spec_terms()[mid as int].0@,
                                self.spec_terms()[k].0@,
                            );
                        }
                    }
                }
                right = mid;
            }
        }
        proof {
            assert forall|k: int|
                0 <= k < self.spec_len() implies (#[trigger] self.spec_terms()[k]).0@ != term@ by {
                lemma_lex_trichotomy(self.spec_terms()[k].0@, term@);
            }
        }
        None
    }

    /// Returns the insertion id of `term`, interning it first if needed.
    /// Fresh terms get the next id in arrival order.
    #[verifier::loop_isolation(false)]
    pub fn get_or_add_term(&mut self, term: &[u8]) -> (r: u32)
        requires
            old(self).wf(),
            old(self).spec_len() < u32::MAX,
            term_text_wf(term@),
        ensures
            final(self).wf(),
            final(self).has_text(term@),
            r == final(self).id_of(term@),
            final(self).spec_term_freq() == old(self).spec_term_freq(),
            old(self).has_text(term@) ==> *final(self) == *old(self) && r == old(self).id_of(
                term@,
            ),
            !old(self).has_text(term@) ==> {
                &&& final(self).spec_len() == old(self).spec_len() + 1
                &&& r == old(self).spec_len()
                &&& forall|t: Seq<u8>|
                    #![trigger final(self).has_text(t)]
                    final(self).has_text(t) <==> (old(self).has_text(t) || t == term@)
                &&& forall|t: Seq<u8>|
                    #![trigger old(self).has_text(t)]
                    old(self).has_text(t) ==> final(self).id_of(t) == old(self).id_of(t)
                &&& forall|id: int|
                    0 <= id < old(self).spec_doc_freq().len() ==> final(self).spec_doc_freq()[id]
                        == old(self).spec_doc_freq()[id]
                &&& final(self).spec_doc_freq()[old(self).spec_len()] == 0
            },
    {
        match self.get_term_id(term) {
            Some(id) => id,
            None => {
                let next_id = self.terms.len() as u32;
                // find the sorted position for the new text
                let n = self.terms.len();
                let mut pos: usize = 0;
                let mut advancing = true;
                while advancing && pos < n
                    invariant
                        0 <= pos <= n,
                        self == old(self),
                        n == old(self).spec_len(),
                        forall|k: int|
                            0 <= k < pos ==> lex_lt((#[trigger] self.spec_terms()[k]).0@, term@),
                        !advancing && pos < n ==> !lex_lt(
                            self.spec_terms()[pos as int].0@,
                            term@,
                        ),
                    decreases n - pos + (if advancing { 1int } else { 0int }),
                {
                    let c = lex_cmp(self.terms[pos].0.as_slice(), term);
                    if c == -1 {
                        pos += 1;
                    } else {
                        advancing = false;
                    }
                }
                proof {
                    if (pos as int) < n {
                        assert(!lex_lt(self.spec_terms()[pos as int].0@, term@));
                    }
                }
                proof {
                    if (pos as int) < old(self).spec_len() {
                        lemma_lex_trichotomy(self.spec_terms()[pos as int].0@, term@);
                        assert(lex_lt(term@, self.spec_terms()[pos as int].0@));
                    }
                    assert forall|k: int|
                        pos <= k < old(self).spec_len() implies lex_lt(
                        term@,
                        (#[trigger] self.spec_terms()[k]).0@,
                    ) by {
                        if k > pos as int {
                            lemma_lex_transitive(
                                term@,
                                self.spec_terms()[pos as int].0@,
                                self.spec_terms()[k].0@,
                            );
                        }
                    }
                }
                let text = vstd::slice::slice_to_vec(term);
                let ghost old_terms = self.terms@;
                self.terms.insert(pos, (text, next_id));
                self.doc_freq.push(0);
                proof {
                    old_terms.insert_ensures(pos as int, (text, next_id));
                    let fs = *self;
                    let os = *old(self);
                    assert(fs.spec_terms()[pos as int].0@ == term@);
                    assert(fs.has_text(term@));
                    assert forall|k: int|
                        0 <= k < fs.spec_len() implies (if k < pos as int {
                        fs.spec_terms()[k] == os.spec_terms()[k]
                    } else if k == pos as int {
                        fs.spec_terms()[k].0@ == term@ && fs.spec_terms()[k].1 == next_id
                    } else {
                        fs.spec_terms()[k] == os.spec_terms()[k - 1]
                    }) by {}
                    assert(fs.wf()) by {
                        assert forall|k: int, l: int|
                            0 <= k < l < fs.spec_len() implies lex_lt(
                            (#[trigger] fs.spec_terms()[k]).0@,
                            (#[trigger] fs.spec_terms()[l]).0@,
                        ) by {
                            if l == pos as int {
                            } else if k == pos as int {
                            } else if k < pos as int && l > pos as int {
                                assert(fs.spec_terms()[k] == os.spec_terms()[k]);
                                assert(fs.spec_terms()[l] == os.spec_terms()[l - 1]);
                                if k < l - 1 {
                                } else {
                                    // k == l - 1, k < pos <= l - 1 impossible
                                    assert(false);
                                }
                            }
                        }
                        assert forall|k: int, l: int|
                            0 <= k < l < fs.spec_len() implies (#[trigger] fs.spec_terms()[k]).1
                                != (#[trigger] fs.spec_terms()[l]).1 by {
                            if k != pos as int && l != pos as int {
                            } else if k == pos as int {
                                assert(fs.spec_terms()[l] == os.spec_terms()[l - 1]);
                                assert(os.spec_terms()[l - 1].1 < os.spec_len());
                            } else {
                                assert(fs.spec_terms()[k] == os.spec_terms()[k]);
                                assert(os.spec_terms()[k].1 < os.spec_len());
                            }
                        }
                    }
                    assert forall|t: Seq<u8>|
                        #![trigger fs.has_text(t)]
                        fs.has_text(t) <==> (os.has_text(t) || t == term@) by {
                        if fs.has_text(t) {
                            let k = choose|k: int|
                                0 <= k < fs.spec_len() && (#[trigger] fs.spec_terms()[k]).0@ == t;
                            if k < pos as int {
                                assert(os.spec_terms()[k].0@ == t);
                                assert(os.has_text(t));
                            } else if k > pos as int {
                                assert(os.spec_terms()[k - 1].0@ == t);
                                assert(os.has_text(t));
                            }
                        }
                        if os.has_text(t) {
                            let k = choose|k: int|
                                0 <= k < os.spec_len() && (#[trigger] os.spec_terms()[k]).0@ == t;
                            if k < pos as int {
                                assert(fs.spec_terms()[k].0@ == t);
                            } else {
                                assert(fs.spec_terms()[k + 1].0@ == t);
                            }
                            assert(fs.has_text(t));
                        }
                    }
                    assert forall|t: Seq<u8>|
                        #![trigger os.has_text(t)]
                        os.has_text(t) implies fs.id_of(t) == os.id_of(t) by {
                        let k = choose|k: int|
                            0 <= k < os.spec_len() && (#[trigger] os.spec_terms()[k]).0@ == t;
                        let k2 = if k < pos as int {
                            k
                        } else {
                            k + 1
                        };
                        assert(fs.spec_terms()[k2].0@ == t);
                        assert(fs.spec_terms()[k2].1 == os.spec_terms()[k].1);
                        lemma_id_at(&fs, k2);
                        lemma_id_at(&os, k);
                    }
                    assert(fs.id_of(term@) == next_id) by {
                        lemma_id_at(&fs, pos as int);
                    }
                }
                next_id
            },
        }
    }

    /// Counts one more document for each id in `ids`. The ids must be
    /// distinct, valid, and their counters below the maximum — one
    /// document never counts twice.
    #[verifier::loop_isolation(false)]
    pub fn update_doc_freq(&mut self, ids: &Vec<u32>)
        requires
            old(self).wf(),
            forall|k: int| 0 <= k < ids@.len() ==> (#[trigger] ids@[k]) < old(self).spec_len(),
            forall|k: int, l: int|
                0 <= k < l < ids@.len() ==> (#[trigger] ids@[k]) != (#[trigger] ids@[l]),
            forall|k: int|
                0 <= k < ids@.len() ==> old(self).spec_doc_freq()[(#[trigger] ids@[k]) as int]
                    < u32::MAX,
        ensures
            final(self).wf(),
            final(self).spec_terms() == old(self).spec_terms(),
            final(self).spec_term_freq() == old(self).spec_term_freq(),
            final(self).spec_doc_freq().len() == old(self).spec_doc_freq().len(),
            forall|id: int|
                0 <= id < final(self).spec_doc_freq().len() ==> final(self).spec_doc_freq()[id]
                    == if u32_id_in(ids@, id) {
                    (old(self).spec_doc_freq()[id] + 1) as u32
                } else {
                    old(self).spec_doc_freq()[id]
                },
    {
        let n = ids.len();
        let mut k: usize = 0;
        while k < n
            invariant
                0 <= k <= n,
                self.wf(),
                self.spec_terms() == old(self).spec_terms(),
                self.spec_term_freq() == old(self).spec_term_freq(),
                self.spec_doc_freq().len() == old(self).spec_doc_freq().len(),
                forall|id: int|
                    0 <= id < self.spec_doc_freq().len() ==> self.spec_doc_freq()[id] == (
                    if u32_id_in(ids@.take(k as int), id) {
                        (old(self).spec_doc_freq()[id] + 1) as u32
                    } else {
                        old(self).spec_doc_freq()[id]
                    }),
            decreases n - k,
        {
            let id = ids[k] as usize;
            proof {
                assert(!u32_id_in(ids@.take(k as int), id as int)) by {
                    if u32_id_in(ids@.take(k as int), id as int) {
                        let l = choose|l: int|
                            0 <= l < k && (#[trigger] ids@.take(k as int)[l]) == id as u32;
                        assert(ids@[l] == ids@[k as int]);
                    }
                }
            }
            let cur = self.doc_freq[id];
            let ghost old_df = self.doc_freq@;
            self.doc_freq.set(id, cur + 1);
            proof {
                assert forall|idd: int|
                    0 <= idd < self.spec_doc_freq().len() implies self.spec_doc_freq()[idd] == (
                if u32_id_in(ids@.take(k as int + 1), idd) {
                    (old(self).spec_doc_freq()[idd] + 1) as u32
                } else {
                    old(self).spec_doc_freq()[idd]
                }) by {
                    assert(ids@.take(k as int + 1) =~= ids@.take(k as int).push(ids@[k as int]));
                    if u32_id_in(ids@.take(k as int + 1), idd) {
                        let l = choose|l: int|
                            0 <= l < k + 1 && (#[trigger] ids@.take(k as int + 1)[l]) == idd as u32;
                        if l < k as int {
                            assert(ids@.take(k as int)[l] == idd as u32);
                            assert(u32_id_in(ids@.take(k as int), idd));
                        }
                    }
                    if u32_id_in(ids@.take(k as int), idd) {
                        let l = choose|l: int|
                            0 <= l < k && (#[trigger] ids@.take(k as int)[l]) == idd as u32;
                        assert(ids@.take(k as int + 1)[l] == idd as u32);
                        assert(u32_id_in(ids@.take(k as int + 1), idd));
                    }
                    if idd == id as int {
                        assert(ids@.take(k as int + 1)[k as int] == idd as u32);
                        assert(u32_id_in(ids@.take(k as int + 1), idd));
                    }
                }
            }
            k += 1;
        }
        proof {
            assert(ids@.take(n as int) =~= ids@);
        }
    }

    /// Counts one more occurrence of term `term_id` in document `doc_id`.
    /// The counter saturates at `u32::MAX`.
    pub fn update_term_freq(&mut self, term_id: u32, doc_id: u32)
        ensures
            final(self).spec_terms() == old(self).spec_terms(),
            final(self).spec_doc_freq() == old(self).spec_doc_freq(),
            final(self).spec_term_freq() == old(self).spec_term_freq().insert(
                spec_freq_key(term_id, doc_id),
                if old(self).spec_term_freq().contains_key(spec_freq_key(term_id, doc_id)) {
                    if old(self).spec_term_freq()[spec_freq_key(term_id, doc_id)] == u32::MAX {
                        u32::MAX
                    } else {
                        (old(self).spec_term_freq()[spec_freq_key(term_id, doc_id)] + 1) as u32
                    }
                } else {
                    1u32
                },
            ),
    {
        let key: u64 = (term_id as u64) * 0x1_0000_0000 + (doc_id as u64);
        proof {
            assert(key == spec_freq_key(term_id, doc_id));
        }
        let next = match self.term_freq.get(&key) {
            Some(c) => {
                if *c == u32::MAX {
                    u32::MAX
                } else {
                    *c + 1
                }
            },
            None => 1,
        };
        self.term_freq.insert(key, next);
    }

    /// The number of occurrences of term `term_id` in document `doc_id`,
    /// or `None` if it was never counted.
    pub fn get_term_freq(&self, term_id: u32, doc_id: u32) -> (r: Option<u32>)
        ensures
            r matches Some(c) ==> self.spec_term_freq().contains_key(
                spec_freq_key(term_id, doc_id),
            ) && c == self.spec_term_freq()[spec_freq_key(term_id, doc_id)],
            r is None ==> !self.spec_term_freq().contains_key(spec_freq_key(term_id, doc_id)),
    {
        let key: u64 = (term_id as u64) * 0x1_0000_0000 + (doc_id as u64);
        proof {
            assert(key == spec_freq_key(term_id, doc_id));
        }
        match self.term_freq.get(&key) {
            Some(c) => Some(*c),
            None => None,
        }
    }

    /// The term-frequency counters.
    pub fn term_frequencies(&self) -> (r: &HashMapWithView<u64, u32>)
        ensures
            r@ == self.spec_term_freq(),
    {
        &self.term_freq
    }

    /// The doc-frequency counters, indexed by insertion id.
    pub fn doc_frequencies(&self) -> (r: &Vec<u32>)
        ensures
            r@ == self.spec_doc_freq(),
    {
        &self.doc_freq
    }

    /// The interned terms: `(text, insertion id)`, sorted by text.
    pub fn terms(&self) -> (r: &Vec<(Vec<u8>, u32)>)
        ensures
            r@ == self.spec_terms(),
    {
        &self.terms
    }

    /// The dimension — rank in text order — the term with insertion id
    /// `term` will have in the finished index.
    #[verifier::loop_isolation(false)]
    pub fn get_sorted_term_pos(&self, term: u32) -> (r: u32)
        requires
            self.wf(),
            exists|k: int| 0 <= k < self.spec_len() && (#[trigger] self.spec_terms()[k]).1 == term,
        ensures
            0 <= r < self.spec_len(),
            self.spec_terms()[r as int].1 == term,
    {
        let n = self.terms.len();
        let mut k: usize = 0;
        while k < n
            invariant
                0 <= k <= n,
                forall|l: int| 0 <= l < k ==> (#[trigger] self.spec_terms()[l]).1 != term,
            decreases n - k,
        {
            if self.terms[k].1 == term {
                return k as u32;
            }
            k += 1;
        }
        proof {
            let w = choose|w: int|
                0 <= w < self.spec_len() && (#[trigger] self.spec_terms()[w]).1 == term;
            assert(false);
        }
        0
    }

    /// The full insertion-id-to-dimension mapping: entry `id` is the
    /// dimension of the term with insertion id `id`.
    #[verifier::loop_isolation(false)]
    pub fn build_order_map(&self) -> (r: Vec<u32>)
        requires
            self.wf(),
        ensures
            r@.len() == self.spec_len(),
            forall|k: int|
                0 <= k < self.spec_len() ==> r@[(#[trigger] self.spec_terms()[k]).1 as int]
                    == k as u32,
            forall|id: int| 0 <= id < r@.len() ==> (#[trigger] r@[id]) < self.spec_len(),
            forall|id: int| 0 <= id < r@.len() ==> (#[trigger] r@[id]) == self.dim_of(id as u32),
    {
        let n = self.terms.len();
        let mut r: Vec<u32> = Vec::new();
        let mut id: usize = 0;
        while id < n
            invariant
                0 <= id <= n,
                r@.len() == id,
                forall|l: int|
                    0 <= l < id ==> 0 <= (#[trigger] r@[l]) < self.spec_len()
                        && self.spec_terms()[r@[l] as int].1 == l as u32,
            decreases n - id,
        {
            proof {
                lemma_ids_cover(self, id as int);
            }
            let pos = self.get_sorted_term_pos(id as u32);
            r.push(pos);
            id += 1;
        }
        proof {
            assert forall|k: int|
                0 <= k < self.spec_len() implies r@[(#[trigger] self.spec_terms()[k]).1 as int]
                    == k as u32 by {
                let idd = self.spec_terms()[k].1 as int;
                assert(self.spec_terms()[r@[idd] as int].1 == idd as u32);
                if r@[idd] as int != k {
                    assert(self.spec_terms()[r@[idd] as int].1 != self.spec_terms()[k].1);
                }
            }
            assert forall|id: int| 0 <= id < r@.len() implies (#[trigger] r@[id]) == self.dim_of(
                id as u32,
            ) by {
                assert(self.spec_terms()[r@[id] as int].1 == id as u32);
                let ck = choose|ck: int|
                    0 <= ck < self.spec_len() && (#[trigger] self.spec_terms()[ck]).1 == id as u32;
                if ck != r@[id] as int {
                    if ck < r@[id] as int {
                        assert(self.spec_terms()[ck].1 != self.spec_terms()[r@[id] as int].1);
                    } else {
                        assert(self.spec_terms()[r@[id] as int].1 != self.spec_terms()[ck].1);
                    }
                }
            }
        }
        r
    }
}

/// The remapped pair list of a vector: each insertion-id dimension
/// replaced by its final dimension, each weight replaced as requested.
pub open spec fn mapped_pairs(
    b: &TermStoreBuilder,
    pairs: Seq<(u32, u32)>,
    new_weights: Option<Seq<u32>>,
) -> Seq<(u32, u32)> {
    Seq::new(
        pairs.len(),
        |j: int|
            (
                b.dim_of(pairs[j].0) as u32,
                match new_weights {
                    Some(w) => w[j],
                    None => pairs[j].1,
                },
            ),
    )
}

/// One rewritten vector: `fv` is `ov` with dimensions remapped through
/// the sorted order, weights replaced by `w` (when given), and the length
/// bits set to `len_bits`.
pub open spec fn adjusted_vec<D>(
    b: &TermStoreBuilder,
    ov: crate::document::DocumentVector<D>,
    fv: crate::document::DocumentVector<D>,
    w: Option<Seq<u32>>,
    len_bits: u32,
) -> bool {
    let mapped = mapped_pairs(b, ov.spec_vec().spec_pairs(), w);
    &&& fv.document == ov.document
    &&& fv.spec_vec().wf()
    &&& fv.spec_vec().spec_length() == len_bits
    &&& (forall|d: u32|
        fv.spec_vec().spec_has_dim(d) <==> crate::vector::seq_has_dim(mapped, d))
    &&& (forall|i: int|
        0 <= i < fv.spec_vec().spec_pairs().len() ==> (
        #[trigger] fv.spec_vec().spec_pairs()[i]).1 == crate::vector::first_weight(
            mapped,
            fv.spec_vec().spec_pairs()[i].0,
        ))
}

/// The rewritten vector is determined: two outcomes of the rewrite for
/// the same input vector, weight bits and length bits agree in document,
/// pairs and length. Rebuilding from the same inputs therefore reproduces
/// the same vectors — and, with the compact posting layout and the
/// byte-exact encoders, a byte-identical archive.
pub proof fn lemma_adjusted_vec_deterministic<D>(
    b: &TermStoreBuilder,
    ov: crate::document::DocumentVector<D>,
    f1: crate::document::DocumentVector<D>,
    f2: crate::document::DocumentVector<D>,
    w: Option<Seq<u32>>,
    len_bits: u32,
)
    requires
        adjusted_vec(b, ov, f1, w, len_bits),
        adjusted_vec(b, ov, f2, w, len_bits),
    ensures
        f1.document == f2.document,
        f1.spec_vec().spec_pairs() == f2.spec_vec().spec_pairs(),
        f1.spec_vec().spec_length() == f2.spec_vec().spec_length(),
{
    let mapped = mapped_pairs(b, ov.spec_vec().spec_pairs(), w);
    crate::vector::lemma_sorted_pairs_determined(
        f1.spec_vec().spec_pairs(),
        f2.spec_vec().spec_pairs(),
        mapped,
    );
}

impl TermStoreBuilder {
    /// Rewrites every document vector from insertion-id dimensions to
    /// final dimensions, applies the optionally supplied per-pair weight
    /// bits (`weights[l][j]` for pair `j` of vector `l`), re-sorts, and
    /// stores the supplied length bits.
    #[verifier::loop_isolation(false)]
    pub fn adjust_vecs<D>(
        &self,
        vecs: &mut Vec<crate::document::DocumentVector<D>>,
        weights: Option<&Vec<Vec<u32>>>,
        lengths: &Vec<u32>,
    )
        requires
            self.wf(),
            forall|l: int, j: int|
                0 <= l < old(vecs)@.len() && 0 <= j < old(vecs)@[l].spec_vec().spec_pairs().len()
                    ==> ((#[trigger] old(vecs)@[l].spec_vec().spec_pairs()[j]).0 as int)
                    < self.spec_len(),
            lengths@.len() == old(vecs)@.len(),
            weights matches Some(w) ==> w@.len() == old(vecs)@.len() && forall|l: int|
                0 <= l < old(vecs)@.len() ==> (#[trigger] w@[l])@.len() == old(
                    vecs,
                )@[l].spec_vec().spec_pairs().len(),
        ensures
            final(vecs)@.len() == old(vecs)@.len(),
            forall|l: int|
                #![trigger final(vecs)@[l]]
                0 <= l < final(vecs)@.len() ==> adjusted_vec(
                    self,
                    old(vecs)@[l],
                    final(vecs)@[l],
                    match weights {
                        Some(w) => Some(w@[l]@),
                        None => None,
                    },
                    lengths@[l],
                ),
    {
        let order = self.build_order_map();
        let n = vecs.len();
        let mut l: usize = 0;
        while l < n
            invariant
                0 <= l <= n,
                n == old(vecs)@.len(),
                vecs@.len() == n,
                order@.len() == self.spec_len(),
                forall|id: int|
                    0 <= id < order@.len() ==> (#[trigger] order@[id]) < self.spec_len()
                        && order@[id] == self.dim_of(id as u32),
                forall|l2: int| l <= l2 < n ==> (#[trigger] vecs@[l2]) == old(vecs)@[l2],
                forall|l2: int|
                    #![trigger vecs@[l2]]
                    0 <= l2 < l ==> adjusted_vec(
                        self,
                        old(vecs)@[l2],
                        vecs@[l2],
                        match weights {
                            Some(w) => Some(w@[l2]@),
                            None => None,
                        },
                        lengths@[l2],
                    ),
            decreases n - l,
        {
            let ghost wopt: Option<Seq<u32>> = match weights {
                Some(w) => Some(w@[l as int]@),
                None => None,
            };
            let ghost mapped_spec = mapped_pairs(
                self,
                old(vecs)@[l as int].spec_vec().spec_pairs(),
                wopt,
            );
            let np = vecs[l].vector().dimen_count();
            let mut mapped: Vec<(u32, u32)> = Vec::new();
            let mut j: usize = 0;
            while j < np
                invariant
                    0 <= j <= np,
                    l < n,
                    np == old(vecs)@[l as int].spec_vec().spec_pairs().len(),
                    vecs@[l as int] == old(vecs)@[l as int],
                    mapped@.len() == j,
                    forall|i: int| 0 <= i < j ==> (#[trigger] mapped@[i]) == mapped_spec[i],
                decreases np - j,
            {
                let pair = vecs[l].vector().sparse_vec()[j];
                let new_dim = order[pair.0 as usize];
                let new_weight = match weights {
                    Some(w) => w[l][j],
                    None => pair.1,
                };
                mapped.push((new_dim, new_weight));
                j += 1;
            }
            proof {
                assert(mapped@ =~= mapped_spec);
            }
            let mut v = crate::vector::Vector::create_new_raw(mapped);
            let ghost v0 = v;
            v.set_length(lengths[l]);
            let ghost before = vecs@;
            let mut dv = vecs.remove(l);
            let ghost removed = vecs@;
            dv.set_vec(v);
            vecs.insert(l, dv);
            proof {
                removed.insert_ensures(l as int, dv);
                assert(before[l as int] == old(vecs)@[l as int]);
                assert(vecs@[l as int] == dv);
                assert(dv.document == old(vecs)@[l as int].document);
                assert(dv.spec_vec() == v);
                assert(v.spec_pairs() == v0.spec_pairs());
                assert(adjusted_vec(self, old(vecs)@[l as int], dv, wopt, lengths@[l as int])) by {
                    assert forall|d: u32|
                        dv.spec_vec().spec_has_dim(d) <==> crate::vector::seq_has_dim(
                            mapped_spec,
                            d,
                        ) by {
                        assert(v0.spec_has_dim(d) <==> crate::vector::seq_has_dim(
                            mapped_spec,
                            d,
                        ));
                    }
                    assert forall|i: int|
                        0 <= i < dv.spec_vec().spec_pairs().len() implies (
                    #[trigger] dv.spec_vec().spec_pairs()[i]).1 == crate::vector::first_weight(
                        mapped_spec,
                        dv.spec_vec().spec_pairs()[i].0,
                    ) by {
                        assert(v0.spec_pairs()[i].1 == crate::vector::first_weight(
                            mapped_spec,
                            v0.spec_pairs()[i].0,
                        ));
                    }
                }
                assert forall|l2: int|
                    0 <= l2 < n && l2 != l as int implies vecs@[l2] == before[l2] by {
                    if l2 < l as int {
                        assert(vecs@[l2] == removed[l2]);
                        assert(removed[l2] == before[l2]);
                    } else {
                        assert(vecs@[l2] == removed[l2 - 1]);
                        assert(removed[l2 - 1] == before[l2]);
                    }
                }
                assert forall|l2: int|
                    #![trigger vecs@[l2]]
                    0 <= l2 < l + 1 implies adjusted_vec(
                    self,
                    old(vecs)@[l2],
                    vecs@[l2],
                    match weights {
                        Some(w) => Some(w@[l2]@),
                        None => None,
                    },
                    lengths@[l2],
                ) by {
                    if l2 < l as int {
                        assert(vecs@[l2] == before[l2]);
                        assert(adjusted_vec(
                            self,
                            old(vecs)@[l2],
                            before[l2],
                            match weights {
                                Some(w) => Some(w@[l2]@),
                                None => None,
                            },
                            lengths@[l2],
                        ));
                    }
                }
            }
            l += 1;
        }
    }
}

/// Id membership in a list of u32 ids, compared as ints.
pub open spec fn u32_id_in(s: Seq<u32>, id: int) -> bool {
    exists|k: int| 0 <= k < s.len() && (#[trigger] s[k]) == id as u32
}

/// In a well-formed builder two positions with the same text are the same
/// position.
proof fn lemma_two_texts_equal(b: TermStoreBuilder, k: int, l: int)
    requires
        b.wf(),
        0 <= k < b.spec_len(),
        0 <= l < b.spec_len(),
        b.spec_terms()[k].0@ == b.spec_terms()[l].0@,
    ensures
        k == l,
{
    if k < l {
        assert(lex_lt(b.spec_terms()[k].0@, b.spec_terms()[l].0@));
        lemma_lex_trichotomy(b.spec_terms()[k].0@, b.spec_terms()[l].0@);
    } else if l < k {
        assert(lex_lt(b.spec_terms()[l].0@, b.spec_terms()[k].0@));
        lemma_lex_trichotomy(b.spec_terms()[l].0@, b.spec_terms()[k].0@);
    }
}

/// In a well-formed builder the insertion ids cover `0..len`: they are
/// `len` distinct values below `len`.
proof fn lemma_ids_cover(b: &TermStoreBuilder, id: int)
    requires
        b.wf(),
        0 <= id < b.spec_len(),
    ensures
        exists|k: int| 0 <= k < b.spec_len() && (#[trigger] b.spec_terms()[k]).1 == id as u32,
{
    let n = b.spec_len();
    let ids = Seq::new(n as nat, |k: int| b.spec_terms()[k].1 as int);
    assert forall|k: int, l: int| 0 <= k < l < n implies ids[k] != ids[l] by {
        assert(b.spec_terms()[k].1 != b.spec_terms()[l].1);
    }
    lemma_injective_below_covers(ids, n, id);
    let k = choose|k: int| 0 <= k < n && #[trigger] ids[k] == id;
    assert(b.spec_terms()[k].1 == id as u32);
}

/// A present text's id is a real entry's id, hence below the count.
pub proof fn lemma_id_of_bound(b: TermStoreBuilder, t: Seq<u8>)
    requires
        b.wf(),
        b.has_text(t),
    ensures
        (b.id_of(t) as int) < b.spec_len(),
{
    let k = choose|k: int| 0 <= k < b.spec_len() && (#[trigger] b.spec_terms()[k]).0@ == t;
    lemma_id_at(&b, k);
}

/// Distinct texts have distinct insertion ids.
pub proof fn lemma_id_injective(b: &TermStoreBuilder, t1: Seq<u8>, t2: Seq<u8>)
    requires
        b.wf(),
        b.has_text(t1),
        b.has_text(t2),
        b.id_of(t1) == b.id_of(t2),
    ensures
        t1 == t2,
{
    let k1 = choose|k: int| 0 <= k < b.spec_len() && (#[trigger] b.spec_terms()[k]).0@ == t1;
    let k2 = choose|k: int| 0 <= k < b.spec_len() && (#[trigger] b.spec_terms()[k]).0@ == t2;
    lemma_id_at(b, k1);
    lemma_id_at(b, k2);
    if k1 != k2 {
        if k1 < k2 {
            assert(b.spec_terms()[k1].1 != b.spec_terms()[k2].1);
        } else {
            assert(b.spec_terms()[k2].1 != b.spec_terms()[k1].1);
        }
    }
}

/// Pigeonhole: a list of `n` distinct values below `n` covers every value
/// below `n`.
proof fn lemma_injective_below_covers(ids: Seq<int>, n: int, id: int)
    requires
        ids.len() == n,
        0 <= id < n,
        forall|k: int| 0 <= k < n ==> 0 <= (#[trigger] ids[k]) < n,
        forall|k: int, l: int| 0 <= k < l < n ==> (#[trigger] ids[k]) != (#[trigger] ids[l]),
    ensures
        exists|k: int| 0 <= k < n && (#[trigger] ids[k]) == id,
{
    if !(exists|k: int| 0 <= k < n && (#[trigger] ids[k]) == id) {
        assert(ids.no_duplicates()) by {
            assert forall|k: int, l: int|
                0 <= k < ids.len() && 0 <= l < ids.len() && k != l implies ids[k] != ids[l] by {
                if k < l {
                } else {
                    assert(ids[l] != ids[k]);
                }
            }
        }
        ids.unique_seq_to_set();
        let s = ids.to_set();
        lemma_int_range(0, n);
        let r = set_int_range(0, n).remove(id);
        assert(set_int_range(0, n).contains(id));
        assert(r.len() == n - 1);
        assert(s.subset_of(r)) by {
            assert forall|x: int| s.contains(x) implies r.contains(x) by {
                assert(ids.contains(x));
                let k = choose|k: int| 0 <= k < ids.len() && ids[k] == x;
                assert(0 <= x < n);
                assert(x != id);
            }
        }
        lemma_len_subset(s, r);
        assert(s.len() == n);
        assert(false);
    }
}

} // verus!
