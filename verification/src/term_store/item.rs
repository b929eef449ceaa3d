//! A single term record.
//!
//! A term is stored as `[u32 LE doc_frequency][text bytes]`; the record
//! length is implicit from the enclosing store, so the text is simply the
//! rest of the record. Term text is the UTF-8 encoding of the term, and
//! terms are ordered byte-lexicographically on it.

use vstd::prelude::*;

use crate::error::Error;
use crate::traits::{push_u32_le, read_u32_le, spec_u32_from_le_bytes, spec_u32_to_le_bytes, Encodable};

verus! {

/// A valid term text: non-empty UTF-8 bytes, free of embedded NUL.
pub open spec fn term_text_wf(t: Seq<u8>) -> bool {
    t.len() > 0 && forall|i: int| 0 <= i < t.len() ==> (#[trigger] t[i]) != 0
}

/// A term record is at least as long as its doc-frequency prefix.
pub open spec fn term_record_wf(rec: Seq<u8>) -> bool {
    rec.len() >= 4
}

/// The text bytes of an encoded term record.
pub open spec fn record_text(rec: Seq<u8>) -> Seq<u8> {
    rec.skip(4)
}

/// The doc frequency of an encoded term record.
pub open spec fn record_df(rec: Seq<u8>) -> u32 {
    spec_u32_from_le_bytes(rec.subrange(0, 4))
}

/// A term in the index: its UTF-8 text and the number of distinct documents
/// containing it.
#[derive(Debug, Clone)]
pub struct IndexTerm {
    text: Vec<u8>,
    doc_frequency: u32,
}

impl IndexTerm {
    pub closed spec fn spec_text(&self) -> Seq<u8> {
        self.text@
    }

    pub closed spec fn spec_doc_frequency(&self) -> u32 {
        self.doc_frequency
    }

    /// Creates a new term.
    pub fn new(text: Vec<u8>, doc_frequency: u32) -> (r: IndexTerm)
        ensures
            r.spec_text() == text@,
            r.spec_doc_frequency() == doc_frequency,
    {
        IndexTerm { text, doc_frequency }
    }

    /// Decodes a term record. The record must carry the full doc-frequency
    /// prefix.
    pub fn decode(data: &[u8]) -> (r: IndexTerm)
        requires
            term_record_wf(data@),
        ensures
            r.spec_text() == record_text(data@),
            r.spec_doc_frequency() == record_df(data@),
    {
        let frequency = read_u32_le(data, 0);
        let text = vstd::slice::slice_to_vec(vstd::slice::slice_subrange(data, 4, data.len()));
        proof {
            assert(data@.subrange(4, data@.len() as int) =~= record_text(data@));
        }
        IndexTerm { text, doc_frequency: frequency }
    }

    /// Get a reference to the term's text.
    pub fn text(&self) -> (r: &Vec<u8>)
        ensures
            r@ == self.spec_text(),
    {
        &self.text
    }

    /// Get the term's doc frequency.
    pub fn doc_frequency(&self) -> (r: u32)
        ensures
            r == self.spec_doc_frequency(),
    {
        self.doc_frequency
    }
}

impl Encodable for IndexTerm {
    open spec fn enc(&self) -> Seq<u8> {
        spec_u32_to_le_bytes(self.spec_doc_frequency()) + self.spec_text()
    }

    open spec fn enc_ok(&self) -> bool {
        true
    }

    fn encode(&self) -> (r: Result<Vec<u8>, Error>) {
        let mut out: Vec<u8> = Vec::new();
        push_u32_le(&mut out, self.doc_frequency);
        let mut text = vstd::slice::slice_to_vec(self.text.as_slice());
        out.append(&mut text);
        proof {
            assert(out@ =~= self.enc());
        }
        Ok(out)
    }
}

/// An encoded term decodes back to itself.
pub proof fn lemma_term_record_round_trip(t: IndexTerm)
    ensures
        term_record_wf(t.enc()),
        record_text(t.enc()) == t.spec_text(),
        record_df(t.enc()) == t.spec_doc_frequency(),
{
    vstd::bytes::lemma_auto_spec_u32_to_from_le_bytes();
    assert(t.enc().subrange(0, 4) =~= spec_u32_to_le_bytes(t.spec_doc_frequency()));
    assert(t.enc().skip(4) =~= t.spec_text());
}

} // verus!
