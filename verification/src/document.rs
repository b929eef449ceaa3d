//! A document paired with its sparse vector, and the bit-exact codec for
//! the stored form.
//!
//! Encoded layout, little-endian:
//!
//! ```text
//! [f32 length] [u16 dimension count]
//!     count x ([u24 dimension] [f32 weight])
//! [payload D]
//! ```
//!
//! The length and the weights are `f32` bit patterns carried as `u32`, so
//! the codec is bit-exact by construction. Dimensions are stored in 24
//! bits: the format reserves up to 2^24 distinct terms. The cached length
//! is taken at face value on decode — never recomputed — so decoding an
//! encoded vector reproduces it exactly.

use vstd::prelude::*;

use crate::error::Error;
use crate::traits::{
    push_u16_le, push_u24_le, push_u32_le, read_u16_le, read_u24_le, read_u32_le,
    spec_u16_to_le_bytes, spec_u16_from_le_bytes, spec_u24_to_le_bytes, spec_u24_from_le_bytes,
    spec_u32_to_le_bytes, spec_u32_from_le_bytes, Decodable, Encodable, U24_LIMIT,
};
use crate::vector::{pairs_sorted, Vector};

verus! {

/// The serialized bytes of a pair list: 7 bytes per pair.
pub open spec fn pairs_bytes(s: Seq<(u32, u32)>) -> Seq<u8>
    decreases s.len(),
{
    if s.len() == 0 {
        Seq::empty()
    } else {
        spec_u24_to_le_bytes(s[0].0) + spec_u32_to_le_bytes(s[0].1) + pairs_bytes(s.drop_first())
    }
}

/// The pair decoded at slot `i` of a pair array starting at `pos`.
pub open spec fn blob_pair_at(data: Seq<u8>, pos: int, i: int) -> (u32, u32) {
    (
        spec_u24_from_le_bytes(data.subrange(pos + 7 * i, pos + 7 * i + 3)),
        spec_u32_from_le_bytes(data.subrange(pos + 7 * i + 3, pos + 7 * i + 7)),
    )
}

/// The `n` pairs decoded from a pair array starting at `pos`.
pub open spec fn blob_pairs(data: Seq<u8>, pos: int, n: int) -> Seq<(u32, u32)> {
    Seq::new(n as nat, |i: int| blob_pair_at(data, pos, i))
}

/// The full vector section of an encoded document vector.
pub open spec fn vec_blob(v: Vector) -> Seq<u8> {
    spec_u32_to_le_bytes(v.spec_length()) + spec_u16_to_le_bytes(v.spec_pairs().len() as u16)
        + pairs_bytes(v.spec_pairs())
}

/// All dimensions fit the 24-bit stored form.
pub open spec fn dims_fit(s: Seq<(u32, u32)>) -> bool {
    forall|i: int| 0 <= i < s.len() ==> (#[trigger] s[i]).0 < U24_LIMIT
}

proof fn lemma_pairs_bytes_push(s: Seq<(u32, u32)>, p: (u32, u32))
    ensures
        pairs_bytes(s.push(p)) == pairs_bytes(s) + spec_u24_to_le_bytes(p.0)
            + spec_u32_to_le_bytes(p.1),
    decreases s.len(),
{
    vstd::bytes::lemma_auto_spec_u32_to_from_le_bytes();
    if s.len() == 0 {
        assert(s.push(p)[0] == p);
        assert(s.push(p).drop_first() =~= s);
        assert(pairs_bytes(s) == Seq::<u8>::empty());
        assert(pairs_bytes(s.push(p)) == spec_u24_to_le_bytes(p.0) + spec_u32_to_le_bytes(p.1)
            + pairs_bytes(s));
        assert(pairs_bytes(s.push(p)) =~= pairs_bytes(s) + spec_u24_to_le_bytes(p.0)
            + spec_u32_to_le_bytes(p.1));
    } else {
        assert(s.push(p)[0] == s[0]);
        assert(s.push(p).drop_first() =~= s.drop_first().push(p));
        lemma_pairs_bytes_push(s.drop_first(), p);
        assert(pairs_bytes(s.push(p)) == spec_u24_to_le_bytes(s[0].0) + spec_u32_to_le_bytes(
            s[0].1,
        ) + pairs_bytes(s.drop_first().push(p)));
        assert(pairs_bytes(s) == spec_u24_to_le_bytes(s[0].0) + spec_u32_to_le_bytes(s[0].1)
            + pairs_bytes(s.drop_first()));
        assert(pairs_bytes(s.push(p)) =~= pairs_bytes(s) + spec_u24_to_le_bytes(p.0)
            + spec_u32_to_le_bytes(p.1));
    }
}

/// Byte layout of a pair list: 7 bytes per pair, each pair's dimension and
/// weight at their slots.
pub proof fn lemma_pairs_bytes_index(s: Seq<(u32, u32)>, i: int)
    requires
        0 <= i < s.len(),
    ensures
        pairs_bytes(s).len() == 7 * s.len(),
        pairs_bytes(s).subrange(7 * i, 7 * i + 3) == spec_u24_to_le_bytes(s[i].0),
        pairs_bytes(s).subrange(7 * i + 3, 7 * i + 7) == spec_u32_to_le_bytes(s[i].1),
    decreases i,
{
    vstd::bytes::lemma_auto_spec_u32_to_from_le_bytes();
    lemma_pairs_bytes_len(s);
    let head = spec_u24_to_le_bytes(s[0].0) + spec_u32_to_le_bytes(s[0].1);
    let rest = pairs_bytes(s.drop_first());
    assert(pairs_bytes(s) == head + rest);
    if i == 0 {
        assert(pairs_bytes(s).subrange(0, 3) =~= spec_u24_to_le_bytes(s[0].0));
        assert(pairs_bytes(s).subrange(3, 7) =~= spec_u32_to_le_bytes(s[0].1));
    } else {
        lemma_pairs_bytes_index(s.drop_first(), i - 1);
        assert(s.drop_first()[i - 1] == s[i]);
        assert(pairs_bytes(s).subrange(7 * i, 7 * i + 3) =~= rest.subrange(
            7 * (i - 1),
            7 * (i - 1) + 3,
        ));
        assert(pairs_bytes(s).subrange(7 * i + 3, 7 * i + 7) =~= rest.subrange(
            7 * (i - 1) + 3,
            7 * (i - 1) + 7,
        ));
    }
}

pub proof fn lemma_pairs_bytes_len(s: Seq<(u32, u32)>)
    ensures
        pairs_bytes(s).len() == 7 * s.len(),
    decreases s.len(),
{
    vstd::bytes::lemma_auto_spec_u32_to_from_le_bytes();
    if s.len() > 0 {
        lemma_pairs_bytes_len(s.drop_first());
    }
}

/// Round-trip law: parsing the encoded vector section of a well-formed
/// vector — with any trailing bytes after it — recovers the cached length
/// bit pattern, the dimension count, and every `(dimension, weight)` pair
/// exactly.
pub proof fn lemma_vector_blob_round_trip(v: Vector, rest: Seq<u8>)
    requires
        v.wf(),
        v.spec_pairs().len() <= u16::MAX,
        dims_fit(v.spec_pairs()),
    ensures
        ({
            let b = vec_blob(v) + rest;
            &&& b.len() == 6 + 7 * v.spec_pairs().len() + rest.len()
            &&& spec_u32_from_le_bytes(b.subrange(0, 4)) == v.spec_length()
            &&& spec_u16_from_le_bytes(b.subrange(4, 6)) == v.spec_pairs().len()
            &&& blob_pairs(b, 6, v.spec_pairs().len() as int) == v.spec_pairs()
        }),
{
    let s = v.spec_pairs();
    let b = vec_blob(v) + rest;
    lemma_pairs_bytes_len(s);
    vstd::bytes::lemma_auto_spec_u32_to_from_le_bytes();
    vstd::bytes::lemma_auto_spec_u16_to_from_le_bytes();
    assert(b.subrange(0, 4) =~= spec_u32_to_le_bytes(v.spec_length()));
    assert(b.subrange(4, 6) =~= spec_u16_to_le_bytes(s.len() as u16));
    assert forall|i: int| 0 <= i < s.len() implies blob_pair_at(b, 6, i) == s[i] by {
        lemma_pairs_bytes_index(s, i);
        crate::traits::lemma_u24_to_from_le_bytes(s[i].0);
        assert(b.subrange(6 + 7 * i, 6 + 7 * i + 3) =~= pairs_bytes(s).subrange(7 * i, 7 * i + 3));
        assert(b.subrange(6 + 7 * i + 3, 6 + 7 * i + 7) =~= pairs_bytes(s).subrange(
            7 * i + 3,
            7 * i + 7,
        ));
    }
    assert(blob_pairs(b, 6, s.len() as int) =~= s);
}

/// Whether the vector section of a record parses at `pos`: intact header,
/// all pairs inside the buffer, dimensions strictly ascending.
pub open spec fn record_blob_ok(data: Seq<u8>, pos: int) -> bool {
    let nn = spec_u16_from_le_bytes(data.subrange(pos + 4, pos + 6)) as int;
    &&& 0 <= pos
    &&& pos + 6 <= data.len()
    &&& pos + 6 + 7 * nn <= data.len()
    &&& pairs_sorted(blob_pairs(data, pos + 6, nn))
}

/// The position just past the vector section.
pub open spec fn record_payload_pos(data: Seq<u8>, pos: int) -> int {
    pos + 6 + 7 * spec_u16_from_le_bytes(data.subrange(pos + 4, pos + 6)) as int
}

/// Whether a full document-vector record parses at `pos`.
pub open spec fn docvec_parse_ok<D: Decodable>(data: Seq<u8>, pos: int) -> bool {
    &&& record_blob_ok(data, pos)
    &&& D::dec_ok(data, record_payload_pos(data, pos))
}

/// A document together with its sparse vector.
#[derive(Debug, Clone)]
pub struct DocumentVector<D> {
    pub document: D,
    pub vec: Vector,
}

impl<D> DocumentVector<D> {
    pub open spec fn spec_vec(&self) -> Vector {
        self.vec
    }

    /// Create a new document vector from a document and its vector.
    pub fn new(document: D, vec: Vector) -> (r: DocumentVector<D>)
        ensures
            r.document == document,
            r.spec_vec() == vec,
    {
        DocumentVector { document, vec }
    }

    /// The document's sparse vector.
    pub fn vector(&self) -> (r: &Vector)
        ensures
            *r == self.spec_vec(),
    {
        &self.vec
    }

    /// Returns `true` if both documents' vectors share a dimension.
    pub fn overlaps_with(&self, other: &DocumentVector<D>) -> (r: bool)
        requires
            self.spec_vec().wf(),
            other.spec_vec().wf(),
        ensures
            r == exists|d: u32|
                self.spec_vec().spec_has_dim(d) && other.spec_vec().spec_has_dim(d),
    {
        self.vec.overlaps_with(&other.vec)
    }

    pub(crate) fn set_vec(&mut self, new_vec: Vector)
        ensures
            final(self).spec_vec() == new_vec,
            final(self).document == old(self).document,
    {
        self.vec = new_vec;
    }
}

impl<D: Encodable> DocumentVector<D> {
    /// Serializes the document vector: the vector section, then the
    /// payload. Fails when the vector carries more than `u16::MAX`
    /// dimensions, a dimension that does not fit 24 bits, or a payload
    /// that does not encode.
    #[verifier::loop_isolation(false)]
    pub fn encode(&self) -> (r: Result<Vec<u8>, Error>)
        ensures
            r matches Ok(v) ==> v@ == vec_blob(self.spec_vec()) + self.document.enc(),
            r is Ok <==> (self.spec_vec().spec_pairs().len() <= u16::MAX && dims_fit(
                self.spec_vec().spec_pairs(),
            ) && self.document.enc_ok()),
    {
        let pairs = self.vec.sparse_vec();
        let n = pairs.len();
        if n > u16::MAX as usize {
            return Err(Error::Decode);
        }
        let mut out: Vec<u8> = Vec::new();
        push_u32_le(&mut out, self.vec.get_length());
        push_u16_le(&mut out, n as u16);
        let mut k: usize = 0;
        while k < n
            invariant
                0 <= k <= n,
                out@ == spec_u32_to_le_bytes(self.spec_vec().spec_length())
                    + spec_u16_to_le_bytes(n as u16) + pairs_bytes(
                    self.spec_vec().spec_pairs().take(k as int),
                ),
                forall|i: int|
                    0 <= i < k ==> (#[trigger] self.spec_vec().spec_pairs()[i]).0 < U24_LIMIT,
            decreases n - k,
        {
            let (dim, weight) = pairs[k];
            if dim >= U24_LIMIT {
                proof {
                    assert(!dims_fit(self.spec_vec().spec_pairs())) by {
                        assert(self.spec_vec().spec_pairs()[k as int].0 >= U24_LIMIT);
                    }
                }
                return Err(Error::Decode);
            }
            push_u24_le(&mut out, dim);
            push_u32_le(&mut out, weight);
            proof {
                lemma_pairs_bytes_push(
                    self.spec_vec().spec_pairs().take(k as int),
                    self.spec_vec().spec_pairs()[k as int],
                );
                assert(self.spec_vec().spec_pairs().take(k as int).push(
                    self.spec_vec().spec_pairs()[k as int],
                ) =~= self.spec_vec().spec_pairs().take(k as int + 1));
                assert(out@ =~= spec_u32_to_le_bytes(self.spec_vec().spec_length())
                    + spec_u16_to_le_bytes(n as u16) + pairs_bytes(
                    self.spec_vec().spec_pairs().take(k as int + 1),
                ));
            }
            k += 1;
        }
        proof {
            assert(dims_fit(self.spec_vec().spec_pairs()));
        }
        let mut payload = match self.document.encode() {
            Ok(p) => p,
            Err(e) => {
                return Err(e);
            },
        };
        out.append(&mut payload);
        proof {
            assert(self.spec_vec().spec_pairs().take(n as int) =~= self.spec_vec().spec_pairs());
            assert(out@ =~= vec_blob(self.spec_vec()) + self.document.enc());
        }
        Ok(out)
    }
}

impl<D: Decodable> DocumentVector<D> {
    /// Deserializes a document vector. The vector section must be intact
    /// and its dimensions strictly ascending; the payload is decoded by
    /// `D`. The cached length is taken at face value.
    #[verifier::loop_isolation(false)]
    pub fn decode(data: &[u8], pos: usize) -> (r: Result<(DocumentVector<D>, usize), Error>)
        ensures
            r matches Ok(p) ==> {
                let nn = spec_u16_from_le_bytes(
                    data@.subrange(pos as int + 4, pos as int + 6),
                ) as int;
                let ps = pos + 6 + 7 * nn;
                &&& docvec_parse_ok::<D>(data@, pos as int)
                &&& pos + 6 + 7 * nn <= data@.len()
                &&& p.0.spec_vec().wf()
                &&& p.0.spec_vec().spec_length() == spec_u32_from_le_bytes(
                    data@.subrange(pos as int, pos as int + 4),
                )
                &&& p.0.spec_vec().spec_pairs() == blob_pairs(data@, pos as int + 6, nn)
                &&& p.0.document.dec_matches(data@, ps)
                &&& D::dec_ok(data@, ps)
                &&& p.1 == D::dec_end(data@, ps)
                &&& pos <= p.1 <= data@.len()
            },
            r is Err ==> !docvec_parse_ok::<D>(data@, pos as int),
    {
        let len = data.len();
        if !(len >= 6 && pos <= len - 6) {
            return Err(Error::Decode);
        }
        let length_bits = read_u32_le(data, pos);
        let n = read_u16_le(data, pos + 4) as usize;
        if n > (len - (pos + 6)) / 7 {
            return Err(Error::Decode);
        }
        let base = pos + 6;
        let mut pairs: Vec<(u32, u32)> = Vec::new();
        let mut k: usize = 0;
        while k < n
            invariant
                0 <= k <= n,
                base == pos + 6,
                base + 7 * n <= len,
                pairs@.len() == k,
                forall|i: int|
                    0 <= i < k ==> (#[trigger] pairs@[i]) == blob_pair_at(
                        data@,
                        base as int,
                        i,
                    ),
                pairs_sorted(pairs@),
            decreases n - k,
        {
            let dim = read_u24_le(data, base + 7 * k);
            let weight = read_u32_le(data, base + 7 * k + 3);
            if k > 0 && pairs[k - 1].0 >= dim {
                proof {
                    let bp = blob_pairs(data@, base as int, n as int);
                    assert(bp[k as int - 1] == blob_pair_at(data@, base as int, k as int - 1));
                    assert(bp[k as int] == blob_pair_at(data@, base as int, k as int));
                    assert(bp[k as int - 1].0 >= bp[k as int].0);
                    assert(!pairs_sorted(bp));
                }
                return Err(Error::Decode);
            }
            let ghost prev = pairs@;
            pairs.push((dim, weight));
            proof {
                assert(pairs@[k as int] == blob_pair_at(data@, base as int, k as int));
                assert forall|i: int, j: int|
                    #![trigger pairs@[i], pairs@[j]]
                    0 <= i < j < pairs@.len() implies pairs@[i].0 < pairs@[j].0 by {
                    if j < pairs@.len() - 1 {
                        assert(pairs@[i] == prev[i] && pairs@[j] == prev[j]);
                    } else {
                        if i < pairs@.len() - 1 {
                            assert(pairs@[i] == prev[i]);
                            if i < k as int - 1 {
                                assert(prev[i].0 < prev[k as int - 1].0);
                            }
                        }
                    }
                }
            }
            k += 1;
        }
        proof {
            assert(pairs@ =~= blob_pairs(data@, pos as int + 6, n as int));
        }
        let vec = Vector::new_raw(pairs, length_bits);
        let (document, end) = match D::decode(data, base + 7 * n) {
            Ok(p) => p,
            Err(_) => {
                return Err(Error::Decode);
            },
        };
        Ok((DocumentVector { document, vec }, end))
    }
}

} // verus!
