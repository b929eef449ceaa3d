//! The vector store: random access to encoded document vectors, pruned by
//! the bound inverted index.
//!
//! Candidate retrieval resolves a query's dimensions through the inverted
//! index, unions the postings, and decodes each candidate vector on
//! demand. Every vector id in any posting is a valid index into the store,
//! and every stored record carries a well-formed vector section.

use vstd::prelude::*;

use core::marker::PhantomData;

use crate::document::{
    blob_pairs, docvec_parse_ok, record_blob_ok, record_payload_pos, vec_blob, DocumentVector,
};
use crate::error::Error;
use crate::inv_index::{u32_in, u32s_sorted, InvertedIndex, NewDimVecMap};
use crate::mem_file::MemFile;
use crate::traits::{spec_u16_from_le_bytes, spec_u32_from_le_bytes, Decodable, Encodable};
use crate::vector::{seq_has_dim, Vector};

verus! {

/// Whether `dv` is the document vector stored in record `rec`: same length
/// bits, same pairs, and a payload that `rec` encodes.
pub open spec fn docvec_matches<D: Decodable>(dv: DocumentVector<D>, rec: Seq<u8>) -> bool {
    let nn = spec_u16_from_le_bytes(rec.subrange(4, 6)) as int;
    &&& dv.spec_vec().wf()
    &&& dv.spec_vec().spec_length() == spec_u32_from_le_bytes(rec.subrange(0, 4))
    &&& dv.spec_vec().spec_pairs() == blob_pairs(rec, 6, nn)
    &&& dv.document.dec_matches(rec, record_payload_pos(rec, 0))
}

/// A container of encoded document vectors with a bound inverted index.
#[derive(Debug)]
pub struct VectorStore<D> {
    store: MemFile,
    map: InvertedIndex,
    vec_type: PhantomData<D>,
}

impl<D: Decodable> VectorStore<D> {
    pub closed spec fn spec_store(&self) -> MemFile {
        self.store
    }

    pub closed spec fn spec_map(&self) -> InvertedIndex {
        self.map
    }

    /// Number of stored vectors.
    pub open spec fn spec_len(&self) -> int {
        self.spec_store().spec_len()
    }

    /// Well-formed: the byte store and the index are sound, every record's
    /// vector section parses, and every posting id addresses a stored
    /// vector.
    pub open spec fn wf(&self) -> bool {
        &&& self.spec_store().wf()
        &&& self.spec_map().wf()
        &&& forall|i: int|
            0 <= i < self.spec_len() ==> record_blob_ok(#[trigger] self.spec_store().record(i), 0)
        &&& forall|d: int, k: int|
            0 <= d < self.spec_map().dims() && 0 <= k < self.spec_map().posting(d).len() ==> (
            #[trigger] self.spec_map().posting(d)[k]) < self.spec_len()
    }

    /// Every stored payload parses with `D`.
    pub open spec fn payloads_ok(&self) -> bool {
        forall|i: int|
            0 <= i < self.spec_len() ==> D::dec_ok(
                #[trigger] self.spec_store().record(i),
                record_payload_pos(self.spec_store().record(i), 0),
            )
    }

    pub(crate) fn from_parts(store: MemFile, map: InvertedIndex) -> (r: VectorStore<D>)
        requires
            store.wf(),
            map.wf(),
            forall|i: int|
                0 <= i < store.spec_len() ==> record_blob_ok(#[trigger] store.record(i), 0),
            forall|i: int|
                0 <= i < store.spec_len() ==> D::dec_ok(
                    #[trigger] store.record(i),
                    record_payload_pos(store.record(i), 0),
                ),
            forall|d: int, k: int|
                0 <= d < map.dims() && 0 <= k < map.posting(d).len() ==> (#[trigger] map.posting(
                    d,
                )[k]) < store.spec_len(),
        ensures
            r.wf(),
            r.payloads_ok(),
            r.spec_store() == store,
            r.spec_map() == map,
    {
        VectorStore { store, map, vec_type: PhantomData }
    }

    /// Get the amount of vectors in the store.
    pub fn len(&self) -> (r: usize)
        ensures
            r == self.spec_len(),
    {
        self.store.len()
    }

    /// Returns `true` if the store does not contain any vectors.
    pub fn is_empty(&self) -> (r: bool)
        ensures
            r == (self.spec_len() == 0),
    {
        self.store.len() == 0
    }

    /// The bound inverted index.
    pub fn get_map(&self) -> (r: &InvertedIndex)
        ensures
            *r == self.spec_map(),
    {
        &self.map
    }

    /// The serialized byte store of the encoded vectors.
    pub(crate) fn encode_store(&self) -> (r: Vec<u8>)
        ensures
            r@ == self.spec_store().spec_encoding(),
    {
        self.store.encode()
    }

    /// How many vectors lie in `dimension`.
    pub fn dimension_size(&self, dimension: u32) -> (r: usize)
        requires
            self.wf(),
        ensures
            r == self.spec_map().posting(dimension as int).len(),
    {
        match self.map.get(dimension) {
            Some(v) => v.len(),
            None => 0,
        }
    }

    /// Reads and decodes the vector with id `id`.
    pub fn load_vector(&self, id: usize) -> (r: Option<DocumentVector<D>>)
        requires
            self.wf(),
        ensures
            r matches Some(dv) ==> id < self.spec_len() && docvec_matches(
                dv,
                self.spec_store().record(id as int),
            ),
            id >= self.spec_len() ==> r is None,
            self.payloads_ok() && id < self.spec_len() ==> r is Some,
    {
        let rec = match self.store.get(id) {
            Some(rec) => rec,
            None => {
                return None;
            },
        };
        proof {
            assert(record_blob_ok(self.spec_store().record(id as int), 0));
        }
        match DocumentVector::<D>::decode(rec.as_slice(), 0) {
            Ok(p) => Some(p.0),
            Err(_) => {
                proof {
                    assert(!docvec_parse_ok::<D>(self.spec_store().record(id as int), 0));
                }
                None
            },
        }
    }

    /// Decodes every stored vector, in id order.
    #[verifier::loop_isolation(false)]
    pub fn iter(&self) -> (r: Vec<DocumentVector<D>>)
        requires
            self.wf(),
            self.payloads_ok(),
        ensures
            r@.len() == self.spec_len(),
            forall|i: int|
                0 <= i < r@.len() ==> docvec_matches(
                    #[trigger] r@[i],
                    self.spec_store().record(i),
                ),
    {
        let n = self.store.len();
        let mut r: Vec<DocumentVector<D>> = Vec::new();
        let mut k: usize = 0;
        while k < n
            invariant
                0 <= k <= n,
                r@.len() == k,
                forall|i: int|
                    0 <= i < k ==> docvec_matches(#[trigger] r@[i], self.spec_store().record(i)),
            decreases n - k,
        {
            match self.load_vector(k) {
                Some(dv) => {
                    r.push(dv);
                },
                None => {
                    proof {
                        assert(false);
                    }
                    return r;
                },
            }
            k += 1;
        }
        r
    }

    /// Returns all vectors in `dimension`, or `None` when the dimension has
    /// none.
    #[verifier::loop_isolation(false)]
    pub fn get_in_dim(&self, dimension: u32) -> (r: Option<Vec<DocumentVector<D>>>)
        requires
            self.wf(),
            self.payloads_ok(),
        ensures
            r matches Some(v) ==> {
                let p = self.spec_map().posting(dimension as int);
                &&& p.len() > 0
                &&& v@.len() == p.len()
                &&& forall|k: int|
                    0 <= k < v@.len() ==> docvec_matches(
                        #[trigger] v@[k],
                        self.spec_store().record(p[k] as int),
                    )
            },
            r is None ==> self.spec_map().posting(dimension as int).len() == 0,
    {
        let ids = match self.map.get(dimension) {
            Some(ids) => ids,
            None => {
                return None;
            },
        };
        proof {
            assert forall|k: int| 0 <= k < ids@.len() implies (#[trigger] ids@[k])
                < self.spec_len() by {
                assert(self.spec_map().posting(dimension as int)[k] < self.spec_len());
            }
        }
        Some(self.load_documents_iter(&ids))
    }

    /// Returns all unique vector ids laying in `dimensions`, ascending.
    #[verifier::loop_isolation(false)]
    pub fn get_in_dims(&self, dimensions: &[u32]) -> (r: Vec<u32>)
        requires
            self.wf(),
        ensures
            u32s_sorted(r@),
            forall|id: u32|
                #![trigger u32_in(r@, id)]
                u32_in(r@, id) <==> exists|di: int|
                    0 <= di < dimensions@.len() && u32_in(
                        self.spec_map().posting((#[trigger] dimensions@[di]) as int),
                        id,
                    ),
            forall|k: int| 0 <= k < r@.len() ==> (#[trigger] r@[k]) < self.spec_len(),
    {
        let n = dimensions.len();
        let mut acc: Vec<u32> = Vec::new();
        let mut k: usize = 0;
        while k < n
            invariant
                0 <= k <= n,
                forall|id: u32|
                    #![trigger u32_in(acc@, id)]
                    u32_in(acc@, id) <==> exists|di: int|
                        0 <= di < k && u32_in(
                            self.spec_map().posting((#[trigger] dimensions@[di]) as int),
                            id,
                        ),
                forall|l: int| 0 <= l < acc@.len() ==> (#[trigger] acc@[l]) < self.spec_len(),
            decreases n - k,
        {
            let ghost prev = acc@;
            match self.map.get(dimensions[k]) {
                Some(mut ids) => {
                    proof {
                        assert forall|l: int| 0 <= l < ids@.len() implies (#[trigger] ids@[l])
                            < self.spec_len() by {
                            assert(self.spec_map().posting(dimensions@[k as int] as int)[l]
                                < self.spec_len());
                        }
                    }
                    let ghost idsv = ids@;
                    acc.append(&mut ids);
                    proof {
                        assert forall|id: u32|
                            #![trigger u32_in(acc@, id)]
                            u32_in(acc@, id) <==> (exists|di: int|
                                0 <= di < k + 1 && u32_in(
                                    self.spec_map().posting((#[trigger] dimensions@[di]) as int),
                                    id,
                                )) by {
                            if u32_in(acc@, id) {
                                let l = choose|l: int| 0 <= l < acc@.len() && acc@[l] == id;
                                if l < prev.len() {
                                    assert(prev[l] == id);
                                    assert(u32_in(prev, id));
                                    let di = choose|di: int|
                                        0 <= di < k && u32_in(
                                            self.spec_map().posting(
                                                (#[trigger] dimensions@[di]) as int,
                                            ),
                                            id,
                                        );
                                    assert(0 <= di < k + 1 && u32_in(
                                        self.spec_map().posting(dimensions@[di] as int),
                                        id,
                                    ));
                                } else {
                                    assert(acc@[l] == idsv[l - prev.len()]);
                                    assert(u32_in(idsv, id));
                                    assert(u32_in(
                                        self.spec_map().posting(dimensions@[k as int] as int),
                                        id,
                                    ));
                                }
                            }
                            if exists|di: int|
                                0 <= di < k + 1 && u32_in(
                                    self.spec_map().posting((#[trigger] dimensions@[di]) as int),
                                    id,
                                ) {
                                let di = choose|di: int|
                                    0 <= di < k + 1 && u32_in(
                                        self.spec_map().posting(
                                            (#[trigger] dimensions@[di]) as int,
                                        ),
                                        id,
                                    );
                                if di < k {
                                    assert(u32_in(prev, id));
                                    let l = choose|l: int|
                                        0 <= l < prev.len() && prev[l] == id;
                                    assert(acc@[l] == id);
                                } else {
                                    assert(u32_in(idsv, id));
                                    let l = choose|l: int|
                                        0 <= l < idsv.len() && idsv[l] == id;
                                    assert(acc@[prev.len() + l] == id);
                                }
                                assert(u32_in(acc@, id));
                            }
                        }
                    }
                },
                None => {
                    proof {
                        assert(self.spec_map().posting(dimensions@[k as int] as int).len() == 0);
                        assert forall|id: u32|
                            #![trigger u32_in(acc@, id)]
                            u32_in(acc@, id) <==> (exists|di: int|
                                0 <= di < k + 1 && u32_in(
                                    self.spec_map().posting((#[trigger] dimensions@[di]) as int),
                                    id,
                                )) by {
                            if exists|di: int|
                                0 <= di < k + 1 && u32_in(
                                    self.spec_map().posting((#[trigger] dimensions@[di]) as int),
                                    id,
                                ) {
                                let di = choose|di: int|
                                    0 <= di < k + 1 && u32_in(
                                        self.spec_map().posting(
                                            (#[trigger] dimensions@[di]) as int,
                                        ),
                                        id,
                                    );
                                if di == k {
                                    let l = choose|l: int|
                                        0 <= l < self.spec_map().posting(
                                            dimensions@[k as int] as int,
                                        ).len() && self.spec_map().posting(
                                            dimensions@[k as int] as int,
                                        )[l] == id;
                                    assert(false);
                                }
                            }
                        }
                    }
                },
            }
            k += 1;
        }
        let r = crate::inv_index::sort_dedup_u32s(&acc);
        proof {
            assert forall|l: int| 0 <= l < r@.len() implies (#[trigger] r@[l])
                < self.spec_len() by {
                assert(u32_in(r@, r@[l]));
                assert(u32_in(acc@, r@[l]));
                let ll = choose|ll: int| 0 <= ll < acc@.len() && acc@[ll] == r@[l];
            }
        }
        r
    }

    /// Loads the vectors with the given ids, in the given order.
    #[verifier::loop_isolation(false)]
    pub fn load_documents_iter(&self, vec_ids: &Vec<u32>) -> (r: Vec<DocumentVector<D>>)
        requires
            self.wf(),
            self.payloads_ok(),
            forall|k: int| 0 <= k < vec_ids@.len() ==> (#[trigger] vec_ids@[k]) < self.spec_len(),
        ensures
            r@.len() == vec_ids@.len(),
            forall|k: int|
                0 <= k < r@.len() ==> docvec_matches(
                    #[trigger] r@[k],
                    self.spec_store().record(vec_ids@[k] as int),
                ),
    {
        let n = vec_ids.len();
        let mut r: Vec<DocumentVector<D>> = Vec::new();
        let mut k: usize = 0;
        while k < n
            invariant
                0 <= k <= n,
                r@.len() == k,
                forall|l: int|
                    0 <= l < k ==> docvec_matches(
                        #[trigger] r@[l],
                        self.spec_store().record(vec_ids@[l] as int),
                    ),
            decreases n - k,
        {
            match self.load_vector(vec_ids[k] as usize) {
                Some(dv) => {
                    r.push(dv);
                },
                None => {
                    proof {
                        assert(false);
                    }
                    return r;
                },
            }
            k += 1;
        }
        r
    }

    /// Returns all vectors laying in any of `dimensions`, deduplicated, in
    /// ascending id order.
    pub fn get_all_iter(&self, dimensions: &[u32]) -> (r: Vec<DocumentVector<D>>)
        requires
            self.wf(),
            self.payloads_ok(),
        ensures
            exists|ids: Seq<u32>|
                {
                    &&& u32s_sorted(ids)
                    &&& (forall|id: u32|
                        #![trigger u32_in(ids, id)]
                        u32_in(ids, id) <==> exists|di: int|
                            0 <= di < dimensions@.len() && u32_in(
                                self.spec_map().posting((#[trigger] dimensions@[di]) as int),
                                id,
                            ))
                    &&& r@.len() == ids.len()
                    &&& forall|k: int|
                        0 <= k < r@.len() ==> docvec_matches(
                            #[trigger] r@[k],
                            self.spec_store().record(ids[k] as int),
                        )
                },
    {
        let ids = self.get_in_dims(dimensions);
        let r = self.load_documents_iter(&ids);
        proof {
            assert(u32s_sorted(ids@) && r@.len() == ids@.len());
        }
        r
    }

    /// Returns all vectors sharing at least one dimension with the query
    /// vector, deduplicated, in ascending id order.
    pub fn get_for_vec(&self, q_vec: &Vector) -> (r: Vec<DocumentVector<D>>)
        requires
            self.wf(),
            self.payloads_ok(),
        ensures
            exists|ids: Seq<u32>|
                {
                    &&& u32s_sorted(ids)
                    &&& (forall|id: u32|
                        #![trigger u32_in(ids, id)]
                        u32_in(ids, id) <==> exists|d: u32|
                            q_vec.spec_has_dim(d) && u32_in(
                                self.spec_map().posting(d as int),
                                id,
                            ))
                    &&& r@.len() == ids.len()
                    &&& forall|k: int|
                        0 <= k < r@.len() ==> docvec_matches(
                            #[trigger] r@[k],
                            self.spec_store().record(ids[k] as int),
                        )
                },
    {
        let dims = q_vec.vec_indices();
        let ids = self.get_in_dims(dims.as_slice());
        let r = self.load_documents_iter(&ids);
        proof {
            assert forall|id: u32|
                #![trigger u32_in(ids@, id)]
                u32_in(ids@, id) <==> (exists|d: u32|
                    q_vec.spec_has_dim(d) && u32_in(self.spec_map().posting(d as int), id)) by {
                if u32_in(ids@, id) {
                    let di = choose|di: int|
                        0 <= di < dims@.len() && u32_in(
                            self.spec_map().posting((#[trigger] dims@[di]) as int),
                            id,
                        );
                    let d = dims@[di];
                    assert(q_vec.spec_pairs()[di].0 == d);
                    assert(q_vec.spec_has_dim(d));
                }
                if exists|d: u32|
                    q_vec.spec_has_dim(d) && u32_in(self.spec_map().posting(d as int), id) {
                    let d = choose|d: u32|
                        q_vec.spec_has_dim(d) && u32_in(self.spec_map().posting(d as int), id);
                    let pi = choose|i: int|
                        0 <= i < q_vec.spec_pairs().len() && (#[trigger] q_vec.spec_pairs()[i]).0
                            == d;
                    assert(dims@[pi] == d);
                    assert(u32_in(self.spec_map().posting((dims@[pi]) as int), id));
                    assert(u32_in(ids@, id));
                }
            }
        }
        r
    }
}

/// Builds a store from finished document vectors: encodes each vector in
/// id order and assembles one posting per dimension.
///
/// On success, a vector id is in the posting of dimension `d` exactly when
/// that vector has a pair in `d` — full coverage, no ghosts.
#[verifier::loop_isolation(false)]
#[verifier::rlimit(100)]
#[verifier::spinoff_prover]
pub fn build<D: Encodable + Decodable>(vectors: &Vec<DocumentVector<D>>) -> (r: Result<
    VectorStore<D>,
    Error,
>)
    requires
        forall|i: int| 0 <= i < vectors@.len() ==> (#[trigger] vectors@[i]).spec_vec().wf(),
    ensures
        vectors@.len() == 0 ==> r is Ok,
        vectors@.len() > u32::MAX ==> r is Err,
        r matches Ok(vs) ==> {
            &&& vs.wf()
            &&& vs.spec_len() == vectors@.len()
            &&& forall|i: int|
                0 <= i < vectors@.len() ==> (#[trigger] vectors@[i]).spec_vec().spec_pairs().len()
                    <= u16::MAX && crate::document::dims_fit(
                    vectors@[i].spec_vec().spec_pairs(),
                ) && vectors@[i].document.enc_ok()
            &&& forall|i: int|
                0 <= i < vectors@.len() ==> (#[trigger] vs.spec_store().record(i)) == vec_blob(
                    vectors@[i].spec_vec(),
                ) + vectors@[i].document.enc()
            &&& forall|i: int, d: u32|
                #![trigger seq_has_dim(vectors@[i].spec_vec().spec_pairs(), d)]
                0 <= i < vectors@.len() ==> (u32_in(vs.spec_map().posting(d as int), i as u32)
                    <==> seq_has_dim(vectors@[i].spec_vec().spec_pairs(), d))
        },
{
    let n = vectors.len();
    if n > u32::MAX as usize {
        return Err(Error::Decode);
    }
    let mut store = MemFile::with_capacity(n);
    let mut map: Vec<(u32, Vec<u32>)> = Vec::new();
    let mut i: usize = 0;
    while i < n
        invariant
            0 <= i <= n,
            n <= u32::MAX,
            i == 0 ==> map@.len() == 0,
            store.wf(),
            store.spec_len() == i,
            forall|l: int|
                0 <= l < i ==> record_blob_ok(#[trigger] store.record(l), 0) && store.record(l)
                    == vec_blob(vectors@[l].spec_vec()) + vectors@[l].document.enc(),
            forall|l: int|
                0 <= l < i ==> (#[trigger] vectors@[l]).spec_vec().spec_pairs().len() <= u16::MAX
                    && crate::document::dims_fit(vectors@[l].spec_vec().spec_pairs())
                    && vectors@[l].document.enc_ok(),
            forall|k: int, l: int|
                0 <= k < l < map@.len() ==> (#[trigger] map@[k]).0 != (#[trigger] map@[l]).0,
            forall|k: int, x: u32|
                #![trigger u32_in(map@[k].1@, x)]
                0 <= k < map@.len() ==> (u32_in(map@[k].1@, x) ==> x < i),
            forall|l: int, d: u32|
                #![trigger seq_has_dim(vectors@[l].spec_vec().spec_pairs(), d)]
                0 <= l < i ==> (seq_has_dim(vectors@[l].spec_vec().spec_pairs(), d) <==> exists|
                    k: int,
                |
                    0 <= k < map@.len() && (#[trigger] map@[k]).0 == d && u32_in(
                        map@[k].1@,
                        l as u32,
                    )),
        decreases n - i,
    {
        let enc = match (&vectors[i]).encode() {
            Ok(enc) => enc,
            Err(e) => {
                return Err(e);
            },
        };
        if enc.len() > u32::MAX as usize || store.byte_size() > u32::MAX as usize - enc.len() {
            return Err(Error::Decode);
        }
        let ghost old_store = store;
        let id = store.insert(enc.as_slice());
        proof {
            assert(store.records() == old_store.records().push(enc@));
            assert(store.records()[i as int] == enc@);
            assert(store.record(i as int) == store.records()[i as int]);
            assert forall|l: int| 0 <= l < i implies store.record(l) == old_store.record(l) by {
                assert(store.records()[l] == old_store.records().push(enc@)[l]);
                assert(old_store.records()[l] == old_store.record(l));
                assert(store.records()[l] == store.record(l));
            }
            crate::document::lemma_vector_blob_round_trip(
                vectors@[i as int].spec_vec(),
                vectors@[i as int].document.enc(),
            );
            assert(record_blob_ok(enc@, 0));
        }
        // append this id to the posting of every dimension of the vector
        let pairs = (&vectors[i]).vector().sparse_vec();
        let np = pairs.len();
        let mut pk: usize = 0;
        while pk < np
            invariant
                0 <= pk <= np,
                0 <= i < n <= u32::MAX,
                np == vectors@[i as int].spec_vec().spec_pairs().len(),
                forall|k: int, l: int|
                    0 <= k < l < map@.len() ==> (#[trigger] map@[k]).0 != (#[trigger] map@[l]).0,
                forall|k: int, x: u32|
                    #![trigger u32_in(map@[k].1@, x)]
                    0 <= k < map@.len() ==> (u32_in(map@[k].1@, x) ==> x < i + 1),
                forall|l: int, d: u32|
                    #![trigger seq_has_dim(vectors@[l].spec_vec().spec_pairs(), d)]
                    0 <= l < i ==> (seq_has_dim(vectors@[l].spec_vec().spec_pairs(), d) <==> exists|
                        k: int,
                    |
                        0 <= k < map@.len() && (#[trigger] map@[k]).0 == d && u32_in(
                            map@[k].1@,
                            l as u32,
                        )),
                forall|d: u32|
                    #![trigger seq_has_dim(vectors@[i as int].spec_vec().spec_pairs().take(pk as int), d)]
                    seq_has_dim(vectors@[i as int].spec_vec().spec_pairs().take(pk as int), d)
                        <==> exists|k: int|
                        0 <= k < map@.len() && (#[trigger] map@[k]).0 == d && u32_in(
                            map@[k].1@,
                            i as u32,
                        ),
            decreases np - pk,
        {
            let d = pairs[pk].0;
            // find this dimension's entry
            let m = map.len();
            let mut e: usize = 0;
            while e < m && map[e].0 != d
                invariant
                    0 <= e <= m,
                    m == map@.len(),
                    forall|k: int| 0 <= k < e ==> (#[trigger] map@[k]).0 != d,
                decreases m - e,
            {
                e += 1;
            }
            let ghost sp = vectors@[i as int].spec_vec().spec_pairs();
            let ghost old_map = map@;
            if e < m {
                // existing entry: append our id
                let mut entry = map.remove(e);
                let ghost removed = map@;
                entry.1.push(i as u32);
                map.insert(e, entry);
                proof {
                    assert(map@[e as int].0 == d);
                    assert(map@[e as int].1@ == old_map[e as int].1@.push(i as u32));
                    assert forall|k: int| 0 <= k < map@.len() && k != e as int implies map@[k]
                        == old_map[k] by {
                        if k < e as int {
                            assert(map@[k] == removed[k]);
                            assert(removed[k] == old_map[k]);
                        } else {
                            assert(map@[k] == removed[k - 1]);
                            assert(removed[k - 1] == old_map[k]);
                        }
                    }
                    lemma_posting_extend(old_map, map@, e as int, d, i as u32, sp, pk as int);
                }
            } else {
                let mut ids: Vec<u32> = Vec::new();
                ids.push(i as u32);
                map.push((d, ids));
                proof {
                    assert(map@[m as int].0 == d);
                    assert(map@[m as int].1@ =~= Seq::<u32>::empty().push(i as u32));
                    assert forall|k: int| 0 <= k < m implies map@[k] == old_map[k] by {}
                    lemma_posting_new(old_map, map@, d, i as u32, sp, pk as int);
                }
            }
            pk += 1;
        }
        proof {
            assert(vectors@[i as int].spec_vec().spec_pairs().take(np as int)
                =~= vectors@[i as int].spec_vec().spec_pairs());
        }
        i += 1;
    }
    let dim_map = NewDimVecMap::new(map);
    let ii = match dim_map.build() {
        Ok(ii) => ii,
        Err(e) => {
            return Err(e);
        },
    };
    let ghost mapv = dim_map.map@;
    let vs = VectorStore { store, map: ii, vec_type: PhantomData };
    proof {
        // posting membership matches vector dimensions
        assert forall|l: int, d: u32|
            #![trigger seq_has_dim(vectors@[l].spec_vec().spec_pairs(), d)]
            0 <= l < vectors@.len() implies (u32_in(vs.spec_map().posting(d as int), l as u32)
            <==> seq_has_dim(vectors@[l].spec_vec().spec_pairs(), d)) by {
            if seq_has_dim(vectors@[l].spec_vec().spec_pairs(), d) {
                let k = choose|k: int|
                    0 <= k < mapv.len() && (#[trigger] mapv[k]).0 == d && u32_in(
                        mapv[k].1@,
                        l as u32,
                    );
                assert(u32_in(ii.posting(mapv[k].0 as int), l as u32));
            }
            if u32_in(vs.spec_map().posting(d as int), l as u32) {
                if crate::inv_index::map_has_dim(mapv, d) {
                    let k = choose|k: int|
                        0 <= k < mapv.len() && (#[trigger] mapv[k]).0 == d;
                    assert(u32_in(ii.posting(d as int), l as u32) <==> u32_in(
                        mapv[k].1@,
                        l as u32,
                    ));
                } else {
                    if 0 <= (d as int) < ii.dims() {
                        assert(ii.posting(d as int).len() == 0);
                        let q = choose|q: int|
                            0 <= q < ii.posting(d as int).len() && ii.posting(d as int)[q]
                                == l as u32;
                        assert(false);
                    } else {
                        assert(ii.posting(d as int) =~= Seq::<u32>::empty());
                        assert(false);
                    }
                }
            }
        }
        // every posting id addresses a stored vector
        assert forall|d: int, k: int|
            0 <= d < vs.spec_map().dims() && 0 <= k < vs.spec_map().posting(d).len() implies (
        #[trigger] vs.spec_map().posting(d)[k]) < vs.spec_len() by {
            let id = vs.spec_map().posting(d)[k];
            assert(u32_in(vs.spec_map().posting(d), id));
            if crate::inv_index::map_has_dim(mapv, d as u32) {
                let kk = choose|kk: int| 0 <= kk < mapv.len() && (#[trigger] mapv[kk]).0 == d as u32;
                assert(u32_in(ii.posting(mapv[kk].0 as int), id) <==> u32_in(mapv[kk].1@, id));
                assert(u32_in(mapv[kk].1@, id));
            } else {
                assert(vs.spec_map().posting(d).len() == 0);
            }
        }
        assert(vs.wf());
    }
    Ok(vs)
}

/// Appending an id to an existing posting entry keeps the map's meaning.
proof fn lemma_posting_extend(
    old_map: Seq<(u32, Vec<u32>)>,
    new_map: Seq<(u32, Vec<u32>)>,
    e: int,
    d: u32,
    id: u32,
    sp: Seq<(u32, u32)>,
    pk: int,
)
    requires
        0 <= e < old_map.len(),
        new_map.len() == old_map.len(),
        old_map[e].0 == d,
        new_map[e].0 == d,
        new_map[e].1@ == old_map[e].1@.push(id),
        forall|k: int| 0 <= k < new_map.len() && k != e ==> new_map[k] == old_map[k],
        0 <= pk < sp.len(),
        sp[pk].0 == d,
    ensures
        forall|x: u32, k: int|
            #![trigger u32_in(new_map[k].1@, x)]
            0 <= k < new_map.len() ==> (u32_in(new_map[k].1@, x) <==> (u32_in(old_map[k].1@, x)
                || (k == e && x == id))),
        forall|dd: u32|
            #![trigger seq_has_dim(sp.take(pk + 1), dd)]
            seq_has_dim(sp.take(pk + 1), dd) <==> (seq_has_dim(sp.take(pk), dd) || dd == d),
{
    assert forall|x: u32, k: int|
        #![trigger u32_in(new_map[k].1@, x)]
        0 <= k < new_map.len() implies (u32_in(new_map[k].1@, x) <==> (u32_in(old_map[k].1@, x) || (
    k == e && x == id))) by {
        if k == e {
            if u32_in(new_map[k].1@, x) {
                let l = choose|l: int|
                    0 <= l < new_map[k].1@.len() && new_map[k].1@[l] == x;
                if l < old_map[k].1@.len() {
                    assert(old_map[k].1@[l] == x);
                    assert(u32_in(old_map[k].1@, x));
                }
            }
            if u32_in(old_map[k].1@, x) {
                let l = choose|l: int|
                    0 <= l < old_map[k].1@.len() && old_map[k].1@[l] == x;
                assert(new_map[k].1@[l] == x);
                assert(u32_in(new_map[k].1@, x));
            }
            if x == id {
                assert(new_map[k].1@[old_map[k].1@.len() as int] == x);
                assert(u32_in(new_map[k].1@, x));
            }
        }
    }
    assert forall|dd: u32|
        #![trigger seq_has_dim(sp.take(pk + 1), dd)]
        seq_has_dim(sp.take(pk + 1), dd) <==> (seq_has_dim(sp.take(pk), dd) || dd == d) by {
        let ext = sp.take(pk + 1);
        if seq_has_dim(ext, dd) {
            let l = choose|l: int| 0 <= l < ext.len() && (#[trigger] ext[l]).0 == dd;
            if l < pk {
                assert(sp.take(pk)[l].0 == dd);
                assert(seq_has_dim(sp.take(pk), dd));
            } else {
                assert(ext[l] == sp[pk]);
            }
        }
        if seq_has_dim(sp.take(pk), dd) {
            let l = choose|l: int|
                0 <= l < sp.take(pk).len() && (#[trigger] sp.take(pk)[l]).0 == dd;
            assert(ext[l].0 == dd);
            assert(seq_has_dim(ext, dd));
        }
        if dd == d {
            assert(ext[pk].0 == dd);
            assert(seq_has_dim(ext, dd));
        }
    }
}

/// Adding a fresh posting entry keeps the map's meaning.
proof fn lemma_posting_new(
    old_map: Seq<(u32, Vec<u32>)>,
    new_map: Seq<(u32, Vec<u32>)>,
    d: u32,
    id: u32,
    sp: Seq<(u32, u32)>,
    pk: int,
)
    requires
        new_map.len() == old_map.len() + 1,
        new_map[old_map.len() as int].0 == d,
        new_map[old_map.len() as int].1@ == Seq::<u32>::empty().push(id),
        forall|k: int| 0 <= k < old_map.len() ==> new_map[k] == old_map[k],
        0 <= pk < sp.len(),
        sp[pk].0 == d,
    ensures
        forall|x: u32, k: int|
            #![trigger u32_in(new_map[k].1@, x)]
            0 <= k < new_map.len() ==> (u32_in(new_map[k].1@, x) <==> ((k < old_map.len() && u32_in(
                old_map[k].1@,
                x,
            )) || (k == old_map.len() && x == id))),
        forall|dd: u32|
            #![trigger seq_has_dim(sp.take(pk + 1), dd)]
            seq_has_dim(sp.take(pk + 1), dd) <==> (seq_has_dim(sp.take(pk), dd) || dd == d),
{
    assert forall|x: u32, k: int|
        #![trigger u32_in(new_map[k].1@, x)]
        0 <= k < new_map.len() implies (u32_in(new_map[k].1@, x) <==> ((k < old_map.len()
        && u32_in(old_map[k].1@, x)) || (k == old_map.len() && x == id))) by {
        if k == old_map.len() {
            if u32_in(new_map[k].1@, x) {
                let l = choose|l: int|
                    0 <= l < new_map[k].1@.len() && new_map[k].1@[l] == x;
                assert(l == 0);
            }
            if x == id {
                assert(new_map[k].1@[0] == x);
                assert(u32_in(new_map[k].1@, x));
            }
        }
    }
    assert forall|dd: u32|
        #![trigger seq_has_dim(sp.take(pk + 1), dd)]
        seq_has_dim(sp.take(pk + 1), dd) <==> (seq_has_dim(sp.take(pk), dd) || dd == d) by {
        let ext = sp.take(pk + 1);
        if seq_has_dim(ext, dd) {
            let l = choose|l: int| 0 <= l < ext.len() && (#[trigger] ext[l]).0 == dd;
            if l < pk {
                assert(sp.take(pk)[l].0 == dd);
                assert(seq_has_dim(sp.take(pk), dd));
            } else {
                assert(ext[l] == sp[pk]);
            }
        }
        if seq_has_dim(sp.take(pk), dd) {
            let l = choose|l: int|
                0 <= l < sp.take(pk).len() && (#[trigger] sp.take(pk)[l]).0 == dd;
            assert(ext[l].0 == dd);
            assert(seq_has_dim(ext, dd));
        }
        if dd == d {
            assert(ext[pk].0 == dd);
            assert(seq_has_dim(ext, dd));
        }
    }
}

/// Every vector id mentioned in any posting addresses a stored vector.
pub proof fn lemma_no_ghost_ids<D: Decodable>(vs: &VectorStore<D>, d: int, k: int)
    requires
        vs.wf(),
        0 <= k < vs.spec_map().posting(d).len(),
    ensures
        (vs.spec_map().posting(d)[k] as int) < vs.spec_len(),
{
    if !(0 <= d < vs.spec_map().dims()) {
        assert(vs.spec_map().posting(d).len() == 0);
    }
}

} // verus!