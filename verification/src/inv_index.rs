//! The inverted index: a dense dimension-to-posting map.
//!
//! For every dimension `0..dims` the index stores a posting: the strictly
//! ascending list of ids of the vectors that are non-zero in that
//! dimension. Physically it is an offset table (one `u32` word offset per
//! dimension) over a flat word array holding, per dimension, a length
//! prefix followed by the ids; dimensions without vectors carry a length-0
//! posting so random access stays O(1).
//!
//! Serialized form, little-endian:
//! `[u64 dimension count] [u32 offset]* [u64 word count] [u32 word]*`.

use vstd::prelude::*;

use crate::error::Error;
use crate::traits::{
    push_u32s_le, push_u64_le, read_u32s_le, read_u64_le, spec_u32_from_le_bytes,
    spec_u64_from_le_bytes, spec_u64_to_le_bytes, u32s_le_bytes,
};

verus! {

/// Membership in a word sequence.
pub open spec fn u32_in(s: Seq<u32>, x: u32) -> bool {
    exists|i: int| 0 <= i < s.len() && s[i] == x
}

/// Strictly ascending, hence duplicate-free.
pub open spec fn u32s_sorted(s: Seq<u32>) -> bool {
    forall|i: int, j: int|
        #![trigger s[i], s[j]]
        0 <= i < j < s.len() ==> s[i] < s[j]
}

/// Whether some entry of a dimension map carries dimension `d`.
pub open spec fn map_has_dim(s: Seq<(u32, Vec<u32>)>, d: u32) -> bool {
    exists|k: int| 0 <= k < s.len() && (#[trigger] s[k]).0 == d
}

/// Two strictly ascending sequences with the same members are equal.
pub proof fn lemma_sorted_unique_same_members(a: Seq<u32>, b: Seq<u32>)
    requires
        u32s_sorted(a),
        u32s_sorted(b),
        forall|x: u32| u32_in(a, x) <==> u32_in(b, x),
    ensures
        a == b,
    decreases a.len(),
{
    if a.len() == 0 {
        if b.len() > 0 {
            assert(u32_in(b, b[0]));
            assert(u32_in(a, b[0]));
        }
        assert(a =~= b);
    } else {
        assert(u32_in(a, a[0]));
        assert(u32_in(b, a[0]));
        if b.len() == 0 {
            assert(!u32_in(b, a[0]));
        }
        assert(u32_in(b, b[0]));
        assert(u32_in(a, b[0]));
        let ka = choose|i: int| 0 <= i < a.len() && a[i] == b[0];
        let kb = choose|i: int| 0 <= i < b.len() && b[i] == a[0];
        // minimality on both sides forces the heads equal
        assert(a[0] <= a[ka]);
        assert(b[0] <= b[kb]);
        assert(a[0] == b[0]);
        let ta = a.drop_first();
        let tb = b.drop_first();
        assert forall|x: u32| u32_in(ta, x) <==> u32_in(tb, x) by {
            assert forall|x: u32| u32_in(ta, x) implies u32_in(tb, x) by {
                let i = choose|i: int| 0 <= i < ta.len() && ta[i] == x;
                assert(a[i + 1] == x);
                assert(u32_in(a, x));
                assert(u32_in(b, x));
                let j = choose|j: int| 0 <= j < b.len() && b[j] == x;
                assert(a[0] < a[i + 1]);
                if j == 0 {
                    assert(x == b[0]);
                }
                assert(tb[j - 1] == x);
            }
            assert forall|x: u32| u32_in(tb, x) implies u32_in(ta, x) by {
                let i = choose|i: int| 0 <= i < tb.len() && tb[i] == x;
                assert(b[i + 1] == x);
                assert(u32_in(b, x));
                assert(u32_in(a, x));
                let j = choose|j: int| 0 <= j < a.len() && a[j] == x;
                assert(b[0] < b[i + 1]);
                if j == 0 {
                    assert(x == a[0]);
                }
                assert(ta[j - 1] == x);
            }
        }
        assert(u32s_sorted(ta)) by {
            assert(forall|i: int, j: int|
                #![trigger ta[i], ta[j]]
                0 <= i < j < ta.len() ==> a[i + 1] < a[j + 1]);
        }
        assert(u32s_sorted(tb)) by {
            assert(forall|i: int, j: int|
                #![trigger tb[i], tb[j]]
                0 <= i < j < tb.len() ==> b[i + 1] < b[j + 1]);
        }
        lemma_sorted_unique_same_members(ta, tb);
        assert(a.len() == b.len());
        assert forall|i: int| 0 <= i < a.len() implies a[i] == b[i] by {
            if i > 0 {
                assert(ta[i - 1] == tb[i - 1]);
                assert(a[i] == ta[i - 1]);
                assert(b[i] == tb[i - 1]);
            }
        }
        assert(a =~= b);
    }
}

/// Sorts ids ascending and removes duplicates.
#[verifier::loop_isolation(false)]
pub fn sort_dedup_u32s(src: &Vec<u32>) -> (r: Vec<u32>)
    ensures
        u32s_sorted(r@),
        forall|x: u32| u32_in(r@, x) <==> u32_in(src@, x),
        r@.len() <= src@.len(),
{
    let n = src.len();
    let mut out: Vec<u32> = Vec::new();
    let mut k: usize = 0;
    while k < n
        invariant
            0 <= k <= n,
            out@.len() <= k,
            u32s_sorted(out@),
            forall|x: u32| u32_in(out@, x) <==> u32_in(src@.take(k as int), x),
        decreases n - k,
    {
        let x = src[k];
        proof {
            assert(src@.take(k as int + 1) =~= src@.take(k as int).push(src@[k as int]));
            assert forall|y: u32|
                u32_in(src@.take(k as int + 1), y) <==> (u32_in(src@.take(k as int), y) || y
                    == src@[k as int]) by {
                let ext = src@.take(k as int + 1);
                if u32_in(ext, y) {
                    let i = choose|i: int| 0 <= i < ext.len() && ext[i] == y;
                    if i < k as int {
                        assert(src@.take(k as int)[i] == y);
                        assert(u32_in(src@.take(k as int), y));
                    }
                }
                if u32_in(src@.take(k as int), y) {
                    let i = choose|i: int| 0 <= i < src@.take(k as int).len() && src@.take(
                        k as int,
                    )[i] == y;
                    assert(ext[i] == y);
                    assert(u32_in(ext, y));
                }
                if y == src@[k as int] {
                    assert(ext[k as int] == y);
                    assert(u32_in(ext, y));
                }
            }
        }
        let mut pos: usize = 0;
        while pos < out.len() && out[pos] < x
            invariant
                0 <= pos <= out@.len(),
                forall|i: int| 0 <= i < pos ==> (#[trigger] out@[i]) < x,
            decreases out@.len() - pos,
        {
            pos += 1;
        }
        if pos < out.len() && out[pos] == x {
            proof {
                assert(out@[pos as int] == x);
                assert(u32_in(out@, x));
                assert forall|y: u32|
                    u32_in(out@, y) <==> u32_in(src@.take(k as int + 1), y) by {
                    if y == src@[k as int] {
                        assert(u32_in(out@, y));
                    }
                }
            }
        } else {
            let ghost old_out = out@;
            out.insert(pos, x);
            proof {
                old_out.insert_ensures(pos as int, x);
                assert forall|y: u32| u32_in(out@, y) <==> (u32_in(old_out, y) || y == x) by {
                    if u32_in(out@, y) {
                        let i = choose|i: int| 0 <= i < out@.len() && out@[i] == y;
                        if i < pos as int {
                            assert(out@[i] == old_out[i]);
                            assert(u32_in(old_out, y));
                        } else if i > pos as int {
                            assert(out@[i] == old_out[i - 1]);
                            assert(u32_in(old_out, y));
                        }
                    }
                    if u32_in(old_out, y) {
                        let i = choose|i: int| 0 <= i < old_out.len() && old_out[i] == y;
                        if i < pos as int {
                            assert(out@[i] == y);
                        } else {
                            assert(out@[i + 1] == y);
                        }
                        assert(u32_in(out@, y));
                    }
                    if y == x {
                        assert(out@[pos as int] == y);
                        assert(u32_in(out@, y));
                    }
                }
                assert forall|y: u32|
                    u32_in(out@, y) <==> u32_in(src@.take(k as int + 1), y) by {
                    assert(u32_in(out@, y) <==> (u32_in(old_out, y) || y == x));
                    assert(u32_in(old_out, y) <==> u32_in(src@.take(k as int), y));
                    assert(u32_in(src@.take(k as int + 1), y) <==> (u32_in(
                        src@.take(k as int),
                        y,
                    ) || y == src@[k as int]));
                }
                assert(u32s_sorted(out@)) by {
                    if (pos as int) < old_out.len() {
                        assert(old_out[pos as int] >= x);
                        assert(old_out[pos as int] != x) by {
                            if old_out[pos as int] == x {
                                assert(u32_in(old_out, x));
                            }
                        }
                    }
                    assert forall|i: int, j: int|
                        #![trigger out@[i], out@[j]]
                        0 <= i < j < out@.len() implies out@[i] < out@[j] by {
                        if i < pos as int {
                            assert(out@[i] == old_out[i]);
                        } else if i == pos as int {
                            assert(out@[i] == x);
                        } else {
                            assert(out@[i] == old_out[i - 1]);
                        }
                        if j < pos as int {
                            assert(out@[j] == old_out[j]);
                        } else if j == pos as int {
                            assert(out@[j] == x);
                        } else {
                            assert(out@[j] == old_out[j - 1]);
                        }
                        if i == pos as int && j > pos as int {
                            if j - 1 > pos as int {
                                assert(old_out[pos as int] < old_out[j - 1]);
                            }
                        }
                    }
                }
            }
        }
        k += 1;
    }
    proof {
        assert(src@.take(n as int) =~= src@);
    }
    out
}

/// A dimension-to-posting map: for each dimension, the ids of all vectors
/// laying in it. Random access goes through the offset table.
#[derive(Debug, Clone)]
pub struct InvertedIndex {
    index: Vec<u32>,
    data: Vec<u32>,
}

impl InvertedIndex {
    pub closed spec fn spec_offsets(&self) -> Seq<u32> {
        self.index@
    }

    pub closed spec fn spec_words(&self) -> Seq<u32> {
        self.data@
    }

    /// Number of dimensions the index covers.
    pub open spec fn dims(&self) -> int {
        self.spec_offsets().len() as int
    }

    /// The posting of dimension `dim`: empty for out-of-range or padded
    /// dimensions.
    pub open spec fn posting(&self, dim: int) -> Seq<u32> {
        if 0 <= dim < self.dims() {
            let start = self.spec_offsets()[dim] as int;
            self.spec_words().subrange(start + 1, start + 1 + self.spec_words()[start] as int)
        } else {
            Seq::empty()
        }
    }

    /// Well-formed: every offset points at a length word whose posting lies
    /// inside the array, and every posting is strictly ascending.
    pub open spec fn wf(&self) -> bool {
        &&& self.spec_offsets().len() <= u32::MAX
        &&& self.spec_words().len() <= u32::MAX
        &&& forall|d: int|
            0 <= d < self.dims() ==> (#[trigger] self.spec_offsets()[d]) < self.spec_words().len()
        &&& forall|d: int|
            0 <= d < self.dims() ==> (#[trigger] self.spec_offsets()[d]) + 1 + self.spec_words()[(
            self.spec_offsets()[d]) as int] <= self.spec_words().len()
        &&& forall|d: int| 0 <= d < self.dims() ==> u32s_sorted(#[trigger] self.posting(d))
    }

    /// Number of dimensions the index covers.
    pub fn dims_count(&self) -> (r: usize)
        ensures
            r == self.dims(),
    {
        self.index.len()
    }

    /// The compact layout the builder produces: the first posting starts
    /// at word 0, each next posting follows immediately, and the word
    /// array ends exactly after the last posting. Under it, the offset
    /// table and word array — and with them the serialized bytes — are a
    /// function of the postings alone.
    pub open spec fn compact_layout(&self) -> bool {
        &&& (self.dims() > 0 ==> self.spec_offsets()[0] == 0)
        &&& (self.dims() == 0 ==> self.spec_words().len() == 0)
        &&& (forall|d: int|
            0 <= d < self.dims() - 1 ==> (#[trigger] self.spec_offsets()[d + 1]) as int
                == self.spec_offsets()[d] + 1 + self.spec_words()[(self.spec_offsets()[d]) as int])
        &&& (self.dims() > 0 ==> self.spec_words().len() == self.spec_offsets()[self.dims() - 1]
            + 1 + self.spec_words()[(self.spec_offsets()[self.dims() - 1]) as int])
    }

    /// Returns the ids of all vectors in dimension `dim`, or `None` when
    /// the dimension is out of range or has no vectors.
    pub fn get(&self, dim: u32) -> (r: Option<Vec<u32>>)
        requires
            self.wf(),
        ensures
            r matches Some(v) ==> v@ == self.posting(dim as int) && v@.len() > 0,
            r is None ==> self.posting(dim as int).len() == 0,
    {
        if dim as usize >= self.index.len() {
            return None;
        }
        proof {
            assert(self.spec_offsets()[dim as int] < self.spec_words().len());
            let ghost st = self.spec_offsets()[dim as int];
            assert(st + 1 + self.spec_words()[st as int] <= self.spec_words().len());
        }
        let start = self.index[dim as usize] as usize;
        let arr_len = self.data[start] as usize;
        if arr_len == 0 {
            return None;
        }
        let mut out: Vec<u32> = Vec::with_capacity(arr_len);
        let mut k: usize = 0;
        while k < arr_len
            invariant
                0 <= k <= arr_len,
                self.wf(),
                dim < self.spec_offsets().len(),
                start == self.spec_offsets()[dim as int] as int,
                arr_len == self.spec_words()[start as int] as int,
                start + 1 + arr_len <= self.spec_words().len(),
                out@.len() == k,
                forall|i: int|
                    0 <= i < k ==> (#[trigger] out@[i]) == self.spec_words()[start + 1 + i],
            decreases arr_len - k,
        {
            out.push(self.data[start + 1 + k]);
            k += 1;
        }
        proof {
            assert(out@ =~= self.posting(dim as int));
        }
        Some(out)
    }

    /// Returns `true` if at least one vector lies in dimension `dim`.
    pub fn has(&self, dim: u32) -> (r: bool)
        requires
            self.wf(),
        ensures
            r == (self.posting(dim as int).len() > 0),
    {
        if dim as usize >= self.index.len() {
            return false;
        }
        proof {
            assert(self.spec_offsets()[dim as int] < self.spec_words().len());
        }
        let start = self.index[dim as usize] as usize;
        self.data[start] != 0
    }

    /// Decodes the whole map: one `(dimension, posting)` pair for every
    /// dimension that has vectors, ascending by dimension.
    #[verifier::loop_isolation(false)]
    pub fn decoded_map(&self) -> (r: Vec<(u32, Vec<u32>)>)
        requires
            self.wf(),
        ensures
            forall|k: int, l: int|
                #![trigger r@[k], r@[l]]
                0 <= k < l < r@.len() ==> r@[k].0 < r@[l].0,
            forall|k: int|
                0 <= k < r@.len() ==> (#[trigger] r@[k]).1@ == self.posting(r@[k].0 as int)
                    && r@[k].1@.len() > 0 && r@[k].0 < self.dims(),
            forall|d: int|
                0 <= d < self.dims() && self.posting(d).len() > 0 ==> exists|k: int|
                    0 <= k < r@.len() && (#[trigger] r@[k]).0 == d,
    {
        let n = self.index.len();
        let mut r: Vec<(u32, Vec<u32>)> = Vec::new();
        let mut d: usize = 0;
        while d < n
            invariant
                0 <= d <= n,
                n == self.dims(),
                forall|k: int, l: int|
                    #![trigger r@[k], r@[l]]
                    0 <= k < l < r@.len() ==> r@[k].0 < r@[l].0,
                forall|k: int|
                    0 <= k < r@.len() ==> (#[trigger] r@[k]).1@ == self.posting(r@[k].0 as int)
                        && r@[k].1@.len() > 0 && r@[k].0 < d,
                forall|dd: int|
                    0 <= dd < d && self.posting(dd).len() > 0 ==> exists|k: int|
                        0 <= k < r@.len() && (#[trigger] r@[k]).0 == dd,
            decreases n - d,
        {
            match self.get(d as u32) {
                Some(v) => {
                    let ghost prev = r@;
                    r.push((d as u32, v));
                    proof {
                        assert(r@[prev.len() as int].0 == d as u32);
                        assert forall|k: int, l: int|
                            #![trigger r@[k], r@[l]]
                            0 <= k < l < r@.len() implies r@[k].0 < r@[l].0 by {
                            if l < r@.len() - 1 {
                                assert(r@[k] == prev[k] && r@[l] == prev[l]);
                            } else {
                                assert(r@[k] == prev[k]);
                                assert(prev[k].0 < d as u32);
                            }
                        }
                        assert forall|dd: int|
                            0 <= dd < d + 1 && self.posting(dd).len() > 0 implies exists|k: int|
                            0 <= k < r@.len() && (#[trigger] r@[k]).0 == dd by {
                            if dd < d {
                                let k = choose|k: int|
                                    0 <= k < prev.len() && (#[trigger] prev[k]).0 == dd;
                                assert(r@[k].0 == dd);
                            } else {
                                assert(r@[prev.len() as int].0 == dd);
                            }
                        }
                    }
                },
                None => {},
            }
            d += 1;
        }
        r
    }

    /// The number of bytes the offset table and the word array occupy.
    pub fn byte_len(&self) -> (r: usize)
        requires
            4 * (self.dims() + self.spec_words().len()) <= usize::MAX,
        ensures
            r == 4 * (self.dims() + self.spec_words().len()),
    {
        4 * self.index.len() + 4 * self.data.len()
    }

    /// The exact serialized form of the index.
    pub open spec fn spec_encoding(&self) -> Seq<u8> {
        spec_u64_to_le_bytes(self.spec_offsets().len() as u64) + u32s_le_bytes(self.spec_offsets())
            + spec_u64_to_le_bytes(self.spec_words().len() as u64) + u32s_le_bytes(
            self.spec_words(),
        )
    }

    /// Serializes the index.
    pub fn encode(&self) -> (r: Vec<u8>)
        ensures
            r@ == self.spec_encoding(),
    {
        let mut out: Vec<u8> = Vec::new();
        push_u64_le(&mut out, self.index.len() as u64);
        push_u32s_le(&mut out, &self.index);
        push_u64_le(&mut out, self.data.len() as u64);
        push_u32s_le(&mut out, &self.data);
        proof {
            assert(out@ =~= self.spec_encoding());
        }
        out
    }

    /// Where the serialized index at `pos` ends: past both length-prefixed
    /// word arrays.
    pub open spec fn bytes_end(data: Seq<u8>, pos: int) -> int {
        let n = spec_u64_from_le_bytes(data.subrange(pos, pos + 8)) as int;
        let w = spec_u64_from_le_bytes(
            data.subrange(pos + 8 + 4 * n, pos + 16 + 4 * n),
        ) as int;
        pos + 16 + 4 * n + 4 * w
    }

    /// Some well-formed index is encoded at `pos`: the bytes there are the
    /// serialization of offset and word arrays meeting every
    /// well-formedness condition.
    pub open spec fn bytes_ok(data: Seq<u8>, pos: int) -> bool {
        exists|soff: Seq<u32>, swords: Seq<u32>|
            #![trigger u32s_le_bytes(soff), u32s_le_bytes(swords)]
            {
                &&& 0 <= pos
                &&& pos + 16 + 4 * soff.len() + 4 * swords.len() <= data.len()
                &&& soff.len() <= u32::MAX
                &&& swords.len() <= u32::MAX
                &&& data.subrange(pos, pos + 16 + 4 * soff.len() + 4 * swords.len())
                    == spec_u64_to_le_bytes(soff.len() as u64) + u32s_le_bytes(soff)
                    + spec_u64_to_le_bytes(swords.len() as u64) + u32s_le_bytes(swords)
                &&& (forall|dd: int|
                    0 <= dd < soff.len() ==> (#[trigger] soff[dd]) < swords.len() && soff[dd] + 1
                        + swords[soff[dd] as int] <= swords.len())
                &&& (forall|dd: int|
                    0 <= dd < soff.len() ==> u32s_sorted(
                        swords.subrange(
                            (#[trigger] soff[dd]) + 1,
                            soff[dd] + 1 + swords[soff[dd] as int],
                        ),
                    ))
            }
    }

    /// Deserializes an index, validating every well-formedness condition.
    #[verifier::loop_isolation(false)]
    #[verifier::rlimit(100)]
    #[verifier::spinoff_prover]
    pub fn decode(data: &[u8], pos: usize) -> (r: Result<(InvertedIndex, usize), Error>)
        ensures
            r matches Ok(p) ==> p.0.wf() && pos <= p.1 <= data@.len() && p.0.spec_encoding()
                == data@.subrange(pos as int, p.1 as int) && Self::bytes_ok(data@, pos as int)
                && p.1 == Self::bytes_end(data@, pos as int),
            r is Err ==> !Self::bytes_ok(data@, pos as int),
    {
        let len = data.len();
        if !(len >= 16 && pos <= len - 16) {
            proof {
                if Self::bytes_ok(data@, pos as int) {
                    let (soff, swords) = lemma_bytes_ok_reads(data@, pos as int);
                }
            }
            return Err(Error::Decode);
        }
        let n64 = read_u64_le(data, pos);
        if n64 > ((len - 16) as u64) / 4 {
            proof {
                if Self::bytes_ok(data@, pos as int) {
                    let (soff, swords) = lemma_bytes_ok_reads(data@, pos as int);
                    assert(n64 == soff.len());
                    assert(4 * (soff.len() as int) <= len - 16);
                    assert((soff.len() as int) <= (len - 16) / 4) by (nonlinear_arith)
                        requires
                            4 * (soff.len() as int) <= len - 16,
                    ;
                }
            }
            return Err(Error::Decode);
        }
        let n = n64 as usize;
        if n > u32::MAX as usize {
            proof {
                if Self::bytes_ok(data@, pos as int) {
                    let (soff, swords) = lemma_bytes_ok_reads(data@, pos as int);
                    assert(n64 == soff.len());
                }
            }
            return Err(Error::Decode);
        }
        if pos > len - 16 - 4 * n {
            proof {
                if Self::bytes_ok(data@, pos as int) {
                    let (soff, swords) = lemma_bytes_ok_reads(data@, pos as int);
                    assert(n64 == soff.len());
                }
            }
            return Err(Error::Decode);
        }
        let offsets = read_u32s_le(data, pos + 8, n);
        let w64 = read_u64_le(data, pos + 8 + 4 * n);
        let wstart = pos + 16 + 4 * n;
        if w64 > ((len - wstart) as u64) / 4 {
            proof {
                if Self::bytes_ok(data@, pos as int) {
                    let (soff, swords) = lemma_bytes_ok_reads(data@, pos as int);
                    assert(n64 == soff.len());
                    assert(w64 == swords.len());
                    assert(4 * (swords.len() as int) <= len - wstart);
                    assert((swords.len() as int) <= (len - wstart) / 4) by (nonlinear_arith)
                        requires
                            4 * (swords.len() as int) <= len - wstart,
                    ;
                }
            }
            return Err(Error::Decode);
        }
        let w = w64 as usize;
        if w > u32::MAX as usize {
            proof {
                if Self::bytes_ok(data@, pos as int) {
                    let (soff, swords) = lemma_bytes_ok_reads(data@, pos as int);
                    assert(n64 == soff.len());
                    assert(w64 == swords.len());
                }
            }
            return Err(Error::Decode);
        }
        let words = read_u32s_le(data, wstart, w);
        let end = wstart + 4 * w;
        let ii = InvertedIndex { index: offsets, data: words };
        // validate the offset table and each posting
        let mut d: usize = 0;
        while d < n
            invariant
                0 <= d <= n,
                n == ii.dims(),
                w == ii.spec_words().len(),
                ii.spec_words().len() <= u32::MAX,
                forall|i: int|
                    0 <= i < d ==> (#[trigger] ii.spec_offsets()[i]) < ii.spec_words().len(),
                forall|i: int|
                    0 <= i < d ==> (#[trigger] ii.spec_offsets()[i]) + 1 + ii.spec_words()[(
                    ii.spec_offsets()[i]) as int] <= ii.spec_words().len(),
                forall|i: int| 0 <= i < d ==> u32s_sorted(#[trigger] ii.posting(i)),
            decreases n - d,
        {
            let start = ii.index[d] as usize;
            if start >= w {
                proof {
                    if Self::bytes_ok(data@, pos as int) {
                        let (soff, swords) = lemma_bytes_ok_reads(data@, pos as int);
                        assert(n64 == soff.len());
                        assert(w64 == swords.len());
                        assert(soff[d as int] == offsets@[d as int]);
                        assert(soff[d as int] < swords.len());
                    }
                }
                return Err(Error::Decode);
            }
            let plen = ii.data[start] as usize;
            if plen > w - start - 1 {
                proof {
                    if Self::bytes_ok(data@, pos as int) {
                        let (soff, swords) = lemma_bytes_ok_reads(data@, pos as int);
                        assert(n64 == soff.len());
                        assert(w64 == swords.len());
                        assert(soff[d as int] == offsets@[d as int]);
                        assert(swords[start as int] == words@[start as int]);
                        assert(soff[d as int] + 1 + swords[soff[d as int] as int]
                            <= swords.len());
                    }
                }
                return Err(Error::Decode);
            }
            // posting must be strictly ascending
            let mut k: usize = 1;
            while k < plen
                invariant
                    1 <= k <= plen || (plen == 0 && k == 1),
                    start + 1 + plen <= w,
                    w == ii.spec_words().len(),
                    forall|i: int|
                        0 < i < k ==> (#[trigger] ii.spec_words()[start + 1 + i])
                            > ii.spec_words()[start + i],
                decreases plen - k,
            {
                if ii.data[start + 1 + k] <= ii.data[start + k] {
                    proof {
                        if Self::bytes_ok(data@, pos as int) {
                            let (soff, swords) = lemma_bytes_ok_reads(data@, pos as int);
                            assert(n64 == soff.len());
                            assert(w64 == swords.len());
                            assert(soff[d as int] == offsets@[d as int]);
                            assert forall|ww: int| 0 <= ww < w implies swords[ww] == words@[
                            ww] by {}
                            let p = swords.subrange(
                                start as int + 1,
                                start + 1 + swords[start as int],
                            );
                            assert(u32s_sorted(p));
                            assert(p[k as int - 1] == swords[start + k]);
                            assert(p[k as int] == swords[start + 1 + k]);
                            assert(p[k as int - 1] < p[k as int]);
                        }
                    }
                    return Err(Error::Decode);
                }
                k += 1;
            }
            proof {
                let p = ii.posting(d as int);
                assert(p.len() == plen);
                assert forall|i: int, j: int|
                    #![trigger p[i], p[j]]
                    0 <= i < j < p.len() implies p[i] < p[j] by {
                    lemma_words_chain(&ii, start as int, i, j, plen as int);
                    assert(p[i] == ii.spec_words()[start + 1 + i]);
                    assert(p[j] == ii.spec_words()[start + 1 + j]);
                }
                assert(u32s_sorted(ii.posting(d as int)));
            }
            d += 1;
        }
        proof {
            assert(ii.wf());
            vstd::bytes::lemma_auto_spec_u64_to_from_le_bytes();
            assert(spec_u64_to_le_bytes(n64) == data@.subrange(pos as int, pos as int + 8)) by {
                assert(n64 == spec_u64_from_le_bytes(data@.subrange(pos as int, pos as int + 8)));
                assert(data@.subrange(pos as int, pos as int + 8).len() == 8);
            }
            assert(spec_u64_to_le_bytes(w64) == data@.subrange(
                pos as int + 8 + 4 * n,
                pos as int + 16 + 4 * n,
            )) by {
                assert(w64 == spec_u64_from_le_bytes(
                    data@.subrange(pos as int + 8 + 4 * n, pos as int + 16 + 4 * n),
                ));
                assert(data@.subrange(pos as int + 8 + 4 * n, pos as int + 16 + 4 * n).len() == 8);
            }
            assert(ii.spec_encoding() =~= data@.subrange(pos as int, end as int));
            assert(Self::bytes_ok(data@, pos as int)) by {
                assert(data@.subrange(
                    pos as int,
                    pos as int + 16 + 4 * ii.spec_offsets().len() + 4 * ii.spec_words().len(),
                ) == spec_u64_to_le_bytes(ii.spec_offsets().len() as u64) + u32s_le_bytes(
                    ii.spec_offsets(),
                ) + spec_u64_to_le_bytes(ii.spec_words().len() as u64) + u32s_le_bytes(
                    ii.spec_words(),
                ));
                assert forall|dd: int|
                    0 <= dd < ii.spec_offsets().len() implies (
                #[trigger] ii.spec_offsets()[dd]) < ii.spec_words().len()
                    && ii.spec_offsets()[dd] + 1 + ii.spec_words()[(ii.spec_offsets()[dd]) as int]
                    <= ii.spec_words().len() by {}
                assert forall|dd: int|
                    0 <= dd < ii.spec_offsets().len() implies u32s_sorted(
                    ii.spec_words().subrange(
                        (#[trigger] ii.spec_offsets()[dd]) + 1,
                        ii.spec_offsets()[dd] + 1 + ii.spec_words()[(
                        ii.spec_offsets()[dd]) as int],
                    ),
                ) by {
                    assert(u32s_sorted(ii.posting(dd)));
                }
            }
        }
        Ok((ii, end))
    }
}

/// When a well-formed encoding sits at `pos`, the byte reads determine
/// its arrays.
#[verifier::rlimit(100)]
#[verifier::spinoff_prover]
pub proof fn lemma_bytes_ok_reads(data: Seq<u8>, pos: int) -> (r: (Seq<u32>, Seq<u32>))
    requires
        InvertedIndex::bytes_ok(data, pos),
    ensures
        ({
            let (soff, swords) = r;
            {
                &&& 0 <= pos
                &&& pos + 16 + 4 * soff.len() + 4 * swords.len() <= data.len()
                &&& soff.len() <= u32::MAX
                &&& swords.len() <= u32::MAX
                &&& spec_u64_from_le_bytes(data.subrange(pos, pos + 8)) == soff.len()
                &&& spec_u64_from_le_bytes(
                    data.subrange(pos + 8 + 4 * soff.len(), pos + 16 + 4 * soff.len()),
                ) == swords.len()
                &&& (forall|i: int|
                    0 <= i < soff.len() ==> (#[trigger] soff[i]) == spec_u32_from_le_bytes(
                        data.subrange(pos + 8 + 4 * i, pos + 8 + 4 * i + 4),
                    ))
                &&& (forall|i: int|
                    0 <= i < swords.len() ==> (#[trigger] swords[i]) == spec_u32_from_le_bytes(
                        data.subrange(
                            pos + 16 + 4 * soff.len() + 4 * i,
                            pos + 16 + 4 * soff.len() + 4 * i + 4,
                        ),
                    ))
                &&& (forall|dd: int|
                    0 <= dd < soff.len() ==> (#[trigger] soff[dd]) < swords.len() && soff[dd] + 1
                        + swords[soff[dd] as int] <= swords.len())
                &&& (forall|dd: int|
                    0 <= dd < soff.len() ==> u32s_sorted(
                        swords.subrange(
                            (#[trigger] soff[dd]) + 1,
                            soff[dd] + 1 + swords[soff[dd] as int],
                        ),
                    ))
            }
        }),
{
    let (soff, swords) = choose|soff: Seq<u32>, swords: Seq<u32>|
        #![trigger u32s_le_bytes(soff), u32s_le_bytes(swords)]
        {
            &&& 0 <= pos
            &&& pos + 16 + 4 * soff.len() + 4 * swords.len() <= data.len()
            &&& soff.len() <= u32::MAX
            &&& swords.len() <= u32::MAX
            &&& data.subrange(pos, pos + 16 + 4 * soff.len() + 4 * swords.len())
                == spec_u64_to_le_bytes(soff.len() as u64) + u32s_le_bytes(soff)
                + spec_u64_to_le_bytes(swords.len() as u64) + u32s_le_bytes(swords)
            &&& (forall|dd: int|
                0 <= dd < soff.len() ==> (#[trigger] soff[dd]) < swords.len() && soff[dd] + 1
                    + swords[soff[dd] as int] <= swords.len())
            &&& (forall|dd: int|
                0 <= dd < soff.len() ==> u32s_sorted(
                    swords.subrange(
                        (#[trigger] soff[dd]) + 1,
                        soff[dd] + 1 + swords[soff[dd] as int],
                    ),
                ))
        };
    let n = soff.len() as int;
    let w = swords.len() as int;
    let whole = data.subrange(pos, pos + 16 + 4 * n + 4 * w);
    crate::traits::lemma_u32s_le_bytes_len(soff);
    crate::traits::lemma_u32s_le_bytes_len(swords);
    vstd::bytes::lemma_auto_spec_u64_to_from_le_bytes();
    assert(data.subrange(pos, pos + 8) =~= spec_u64_to_le_bytes(soff.len() as u64)) by {
        assert forall|b: int|
            0 <= b < 8 implies #[trigger] data.subrange(pos, pos + 8)[b] == spec_u64_to_le_bytes(
            soff.len() as u64,
        )[b] by {
            assert(whole[b] == data[pos + b]);
        }
    }
    assert(data.subrange(pos + 8 + 4 * n, pos + 16 + 4 * n) =~= spec_u64_to_le_bytes(
        swords.len() as u64,
    )) by {
        assert forall|b: int|
            0 <= b < 8 implies #[trigger] data.subrange(pos + 8 + 4 * n, pos + 16 + 4 * n)[b]
            == spec_u64_to_le_bytes(swords.len() as u64)[b] by {
            assert(whole[8 + 4 * n + b] == data[pos + 8 + 4 * n + b]);
        }
    }
    assert forall|i: int| 0 <= i < n implies (#[trigger] soff[i]) == spec_u32_from_le_bytes(
        data.subrange(pos + 8 + 4 * i, pos + 8 + 4 * i + 4),
    ) by {
        crate::traits::lemma_u32s_le_bytes_index(soff, i);
        vstd::bytes::lemma_auto_spec_u32_to_from_le_bytes();
        assert(data.subrange(pos + 8 + 4 * i, pos + 8 + 4 * i + 4) =~= u32s_le_bytes(
            soff,
        ).subrange(4 * i, 4 * i + 4)) by {
            assert forall|b: int|
                0 <= b < 4 implies #[trigger] data.subrange(
                pos + 8 + 4 * i,
                pos + 8 + 4 * i + 4,
            )[b] == u32s_le_bytes(soff).subrange(4 * i, 4 * i + 4)[b] by {
                assert(whole[8 + 4 * i + b] == data[pos + 8 + 4 * i + b]);
            }
        }
    }
    assert forall|i: int| 0 <= i < w implies (#[trigger] swords[i]) == spec_u32_from_le_bytes(
        data.subrange(pos + 16 + 4 * n + 4 * i, pos + 16 + 4 * n + 4 * i + 4),
    ) by {
        crate::traits::lemma_u32s_le_bytes_index(swords, i);
        vstd::bytes::lemma_auto_spec_u32_to_from_le_bytes();
        assert(data.subrange(pos + 16 + 4 * n + 4 * i, pos + 16 + 4 * n + 4 * i + 4)
            =~= u32s_le_bytes(swords).subrange(4 * i, 4 * i + 4)) by {
            assert forall|b: int|
                0 <= b < 4 implies #[trigger] data.subrange(
                pos + 16 + 4 * n + 4 * i,
                pos + 16 + 4 * n + 4 * i + 4,
            )[b] == u32s_le_bytes(swords).subrange(4 * i, 4 * i + 4)[b] by {
                assert(whole[16 + 4 * n + 4 * i + b] == data[pos + 16 + 4 * n + 4 * i + b]);
            }
        }
    }
    (soff, swords)
}

/// An index whose encoding sits at `pos` has its arrays determined by the
/// byte reads there.
#[verifier::rlimit(100)]
#[verifier::spinoff_prover]
pub proof fn lemma_encoding_reads(ii: &InvertedIndex, data: Seq<u8>, pos: int)
    requires
        0 <= pos,
        ii.dims() <= u32::MAX,
        ii.spec_words().len() <= u32::MAX,
        pos + 16 + 4 * ii.dims() + 4 * ii.spec_words().len() <= data.len(),
        ii.spec_encoding() == data.subrange(
            pos,
            pos + 16 + 4 * ii.dims() + 4 * ii.spec_words().len(),
        ),
    ensures
        spec_u64_from_le_bytes(data.subrange(pos, pos + 8)) == ii.dims(),
        spec_u64_from_le_bytes(
            data.subrange(pos + 8 + 4 * ii.dims(), pos + 16 + 4 * ii.dims()),
        ) == ii.spec_words().len(),
        forall|i: int|
            0 <= i < ii.dims() ==> (#[trigger] ii.spec_offsets()[i]) == spec_u32_from_le_bytes(
                data.subrange(pos + 8 + 4 * i, pos + 8 + 4 * i + 4),
            ),
        forall|i: int|
            0 <= i < ii.spec_words().len() ==> (#[trigger] ii.spec_words()[i])
                == spec_u32_from_le_bytes(
                data.subrange(
                    pos + 16 + 4 * ii.dims() + 4 * i,
                    pos + 16 + 4 * ii.dims() + 4 * i + 4,
                ),
            ),
{
    let n = ii.dims();
    let w = ii.spec_words().len() as int;
    let whole = data.subrange(pos, pos + 16 + 4 * n + 4 * w);
    crate::traits::lemma_u32s_le_bytes_len(ii.spec_offsets());
    crate::traits::lemma_u32s_le_bytes_len(ii.spec_words());
    vstd::bytes::lemma_auto_spec_u64_to_from_le_bytes();
    vstd::bytes::lemma_auto_spec_u32_to_from_le_bytes();
    assert(data.subrange(pos, pos + 8) =~= spec_u64_to_le_bytes(
        ii.spec_offsets().len() as u64,
    )) by {
        assert forall|b: int|
            0 <= b < 8 implies #[trigger] data.subrange(pos, pos + 8)[b] == spec_u64_to_le_bytes(
            ii.spec_offsets().len() as u64,
        )[b] by {
            assert(whole[b] == data[pos + b]);
        }
    }
    assert(data.subrange(pos + 8 + 4 * n, pos + 16 + 4 * n) =~= spec_u64_to_le_bytes(
        ii.spec_words().len() as u64,
    )) by {
        assert forall|b: int|
            0 <= b < 8 implies #[trigger] data.subrange(pos + 8 + 4 * n, pos + 16 + 4 * n)[b]
            == spec_u64_to_le_bytes(ii.spec_words().len() as u64)[b] by {
            assert(whole[8 + 4 * n + b] == data[pos + 8 + 4 * n + b]);
        }
    }
    assert forall|i: int|
        0 <= i < n implies (#[trigger] ii.spec_offsets()[i]) == spec_u32_from_le_bytes(
        data.subrange(pos + 8 + 4 * i, pos + 8 + 4 * i + 4),
    ) by {
        crate::traits::lemma_u32s_le_bytes_index(ii.spec_offsets(), i);
        assert(data.subrange(pos + 8 + 4 * i, pos + 8 + 4 * i + 4) =~= u32s_le_bytes(
            ii.spec_offsets(),
        ).subrange(4 * i, 4 * i + 4)) by {
            assert forall|b: int|
                0 <= b < 4 implies #[trigger] data.subrange(
                pos + 8 + 4 * i,
                pos + 8 + 4 * i + 4,
            )[b] == u32s_le_bytes(ii.spec_offsets()).subrange(4 * i, 4 * i + 4)[b] by {
                assert(whole[8 + 4 * i + b] == data[pos + 8 + 4 * i + b]);
            }
        }
    }
    assert forall|i: int|
        0 <= i < w implies (#[trigger] ii.spec_words()[i]) == spec_u32_from_le_bytes(
        data.subrange(pos + 16 + 4 * n + 4 * i, pos + 16 + 4 * n + 4 * i + 4),
    ) by {
        crate::traits::lemma_u32s_le_bytes_index(ii.spec_words(), i);
        assert(data.subrange(pos + 16 + 4 * n + 4 * i, pos + 16 + 4 * n + 4 * i + 4)
            =~= u32s_le_bytes(ii.spec_words()).subrange(4 * i, 4 * i + 4)) by {
            assert forall|b: int|
                0 <= b < 4 implies #[trigger] data.subrange(
                pos + 16 + 4 * n + 4 * i,
                pos + 16 + 4 * n + 4 * i + 4,
            )[b] == u32s_le_bytes(ii.spec_words()).subrange(4 * i, 4 * i + 4)[b] by {
                assert(whole[16 + 4 * n + 4 * i + b] == data[pos + 16 + 4 * n + 4 * i + b]);
            }
        }
    }
}

/// Under the compact layout, the whole index — offset table, word array,
/// and with them the serialized bytes — is a function of the postings
/// alone: two well-formed compact indexes with equal postings are
/// identical. Together with the byte-exact section and archive encoders,
/// rebuilding from the same postings yields byte-identical artifacts.
pub proof fn lemma_compact_layout_deterministic(a: &InvertedIndex, b: &InvertedIndex)
    requires
        a.wf(),
        b.wf(),
        a.compact_layout(),
        b.compact_layout(),
        a.dims() == b.dims(),
        forall|d: int| 0 <= d < a.dims() ==> #[trigger] a.posting(d) == b.posting(d),
    ensures
        a.spec_offsets() == b.spec_offsets(),
        a.spec_words() == b.spec_words(),
        a.spec_encoding() == b.spec_encoding(),
{
    let n = a.dims();
    assert forall|d: int|
        0 <= d < n implies (#[trigger] a.spec_offsets()[d]) == b.spec_offsets()[d] by {
        lemma_compact_offsets_equal(a, b, d);
    }
    if n == 0 {
        assert(a.spec_offsets() =~= b.spec_offsets());
        assert(a.spec_words() =~= b.spec_words());
    } else {
        assert(a.spec_offsets() =~= b.spec_offsets());
        assert(a.spec_words().len() == b.spec_words().len()) by {
            assert(a.spec_offsets()[n - 1] == b.spec_offsets()[n - 1]);
            assert(a.posting(n - 1).len() == b.posting(n - 1).len());
            assert(a.spec_words()[(a.spec_offsets()[n - 1]) as int] as int == a.posting(
                n - 1,
            ).len());
            assert(b.spec_words()[(b.spec_offsets()[n - 1]) as int] as int == b.posting(
                n - 1,
            ).len());
        }
        assert forall|w: int|
            0 <= w < a.spec_words().len() implies a.spec_words()[w] == b.spec_words()[w] by {
            let d = lemma_compact_segment_of(a, w);
            let off = a.spec_offsets()[d] as int;
            assert(b.spec_offsets()[d] == a.spec_offsets()[d]);
            assert(a.spec_words()[off] as int == a.posting(d).len());
            assert(b.spec_words()[off] as int == b.posting(d).len());
            if w == off {
            } else {
                assert(a.posting(d)[w - off - 1] == a.spec_words()[w]);
                assert(b.posting(d)[w - off - 1] == b.spec_words()[w]);
            }
        }
        assert(a.spec_words() =~= b.spec_words());
    }
}

/// Compact offsets are determined by the posting lengths.
proof fn lemma_compact_offsets_equal(a: &InvertedIndex, b: &InvertedIndex, d: int)
    requires
        a.wf(),
        b.wf(),
        a.compact_layout(),
        b.compact_layout(),
        a.dims() == b.dims(),
        forall|d2: int| 0 <= d2 < a.dims() ==> #[trigger] a.posting(d2) == b.posting(d2),
        0 <= d < a.dims(),
    ensures
        a.spec_offsets()[d] == b.spec_offsets()[d],
    decreases d,
{
    if d > 0 {
        lemma_compact_offsets_equal(a, b, d - 1);
        assert(a.posting(d - 1).len() == b.posting(d - 1).len());
        assert(a.spec_words()[(a.spec_offsets()[d - 1]) as int] as int == a.posting(d - 1).len());
        assert(b.spec_words()[(b.spec_offsets()[d - 1]) as int] as int == b.posting(d - 1).len());
        assert(a.spec_offsets()[(d - 1) + 1] as int == a.spec_offsets()[d - 1] + 1
            + a.spec_words()[(a.spec_offsets()[d - 1]) as int]);
        assert(b.spec_offsets()[(d - 1) + 1] as int == b.spec_offsets()[d - 1] + 1
            + b.spec_words()[(b.spec_offsets()[d - 1]) as int]);
    }
}

/// Under the compact layout every word position lies inside the posting
/// segment of some dimension.
proof fn lemma_compact_segment_of(a: &InvertedIndex, w: int) -> (d: int)
    requires
        a.wf(),
        a.compact_layout(),
        a.dims() > 0,
        0 <= w < a.spec_words().len(),
    ensures
        0 <= d < a.dims(),
        a.spec_offsets()[d] <= w < a.spec_offsets()[d] + 1 + a.spec_words()[(
        a.spec_offsets()[d]) as int],
{
    lemma_compact_segment_in_prefix(a, a.dims(), w)
}

proof fn lemma_compact_segment_in_prefix(a: &InvertedIndex, k: int, w: int) -> (d: int)
    requires
        a.wf(),
        a.compact_layout(),
        1 <= k <= a.dims(),
        0 <= w,
        w < a.spec_offsets()[k - 1] + 1 + a.spec_words()[(a.spec_offsets()[k - 1]) as int],
    ensures
        0 <= d < k,
        a.spec_offsets()[d] <= w < a.spec_offsets()[d] + 1 + a.spec_words()[(
        a.spec_offsets()[d]) as int],
    decreases k,
{
    if w >= a.spec_offsets()[k - 1] {
        k - 1
    } else {
        assert(k - 1 > 0) by {
            if k - 1 == 0 {
                assert(a.spec_offsets()[0] == 0);
            }
        }
        assert(w < a.spec_offsets()[k - 2] + 1 + a.spec_words()[(
        a.spec_offsets()[k - 2]) as int]) by {
            assert(a.spec_offsets()[(k - 2) + 1] as int == a.spec_offsets()[k - 2] + 1
                + a.spec_words()[(a.spec_offsets()[k - 2]) as int]);
        }
        lemma_compact_segment_in_prefix(a, k - 1, w)
    }
}

/// Adjacent ascending words in a posting give the strict order on all
/// pairs.
proof fn lemma_words_chain(ii: &InvertedIndex, start: int, i: int, j: int, plen: int)
    requires
        0 <= start,
        start + 1 + plen <= ii.spec_words().len(),
        0 <= i < j < plen,
        forall|k: int|
            0 < k < plen ==> (#[trigger] ii.spec_words()[start + 1 + k]) > ii.spec_words()[start
                + k],
    ensures
        ii.spec_words()[start + 1 + i] < ii.spec_words()[start + 1 + j],
    decreases j - i,
{
    if i + 1 == j {
        assert(ii.spec_words()[start + 1 + j] > ii.spec_words()[start + j]);
    } else {
        lemma_words_chain(ii, start, i, j - 1, plen);
        assert(ii.spec_words()[start + 1 + j] > ii.spec_words()[start + j]);
    }
}

} // verus!

verus! {

/// The posting words at `start`: a length prefix, then the ids.
pub open spec fn words_posting(words: Seq<u32>, start: int) -> Seq<u32> {
    words.subrange(start + 1, start + 1 + words[start] as int)
}

/// Whether `x` occurs among the first `bound` entries of `order`.
pub open spec fn order_contains(order: Seq<usize>, bound: int, x: int) -> bool {
    exists|a: int| 0 <= a < bound && (#[trigger] order[a]) == x
}

/// Total number of ids across all entries of a dimension map.
pub open spec fn total_ids(s: Seq<(u32, Vec<u32>)>) -> int
    decreases s.len(),
{
    if s.len() == 0 {
        0
    } else {
        total_ids(s.drop_last()) + s.last().1@.len()
    }
}

/// One more than the largest dimension of a non-empty map (`0` when
/// empty): the number of dimensions the laid-out index covers.
pub open spec fn dims_total(s: Seq<(u32, Vec<u32>)>) -> int
    decreases s.len(),
{
    if s.len() == 0 {
        0
    } else {
        let rest = dims_total(s.drop_last());
        if s.last().0 as int + 1 > rest {
            s.last().0 as int + 1
        } else {
            rest
        }
    }
}

/// Number of ids in the entries picked out by `idxs`.
pub open spec fn idx_sum(s: Seq<(u32, Vec<u32>)>, idxs: Seq<usize>) -> int
    decreases idxs.len(),
{
    if idxs.len() == 0 {
        0
    } else {
        idx_sum(s, idxs.drop_last()) + s[idxs.last() as int].1@.len()
    }
}

/// Entries all below the last position sum the same in the shorter map.
proof fn lemma_idx_sum_drop_last(s: Seq<(u32, Vec<u32>)>, idxs: Seq<usize>)
    requires
        s.len() > 0,
        forall|a: int| 0 <= a < idxs.len() ==> (#[trigger] idxs[a]) < s.len() - 1,
    ensures
        idx_sum(s.drop_last(), idxs) == idx_sum(s, idxs),
    decreases idxs.len(),
{
    if idxs.len() > 0 {
        assert forall|a: int|
            0 <= a < idxs.drop_last().len() implies (#[trigger] idxs.drop_last()[a]) < s.len()
            - 1 by {
            assert(idxs.drop_last()[a] == idxs[a]);
        }
        lemma_idx_sum_drop_last(s, idxs.drop_last());
        assert(idxs[idxs.len() - 1] < s.len() - 1);
        assert(s.drop_last()[idxs.last() as int] == s[idxs.last() as int]);
    }
}

/// Removing one pick removes exactly its entry's count.
proof fn lemma_idx_sum_remove(s: Seq<(u32, Vec<u32>)>, idxs: Seq<usize>, p: int)
    requires
        0 <= p < idxs.len(),
        forall|a: int| 0 <= a < idxs.len() ==> (#[trigger] idxs[a]) < s.len(),
    ensures
        idx_sum(s, idxs) == idx_sum(s, idxs.remove(p)) + s[idxs[p] as int].1@.len(),
    decreases idxs.len(),
{
    if p == idxs.len() - 1 {
        assert(idxs.remove(p) =~= idxs.drop_last());
    } else {
        assert forall|a: int|
            0 <= a < idxs.drop_last().len() implies (#[trigger] idxs.drop_last()[a]) < s.len() by {
            assert(idxs.drop_last()[a] == idxs[a]);
        }
        lemma_idx_sum_remove(s, idxs.drop_last(), p);
        assert(idxs.remove(p).drop_last() =~= idxs.drop_last().remove(p));
        assert(idxs.remove(p).last() == idxs.last());
        assert(idxs.drop_last()[p] == idxs[p]);
    }
}

/// Distinct picks never sum to more than the whole map.
proof fn lemma_idx_sum_le_total(s: Seq<(u32, Vec<u32>)>, idxs: Seq<usize>)
    requires
        forall|a: int| 0 <= a < idxs.len() ==> (#[trigger] idxs[a]) < s.len(),
        forall|a: int, b: int|
            0 <= a < b < idxs.len() ==> (#[trigger] idxs[a]) != (#[trigger] idxs[b]),
    ensures
        idx_sum(s, idxs) <= total_ids(s),
        idx_sum(s, idxs) >= 0,
    decreases s.len(),
{
    if idxs.len() == 0 {
        lemma_total_ids_nonneg(s);
    } else if s.len() == 0 {
        assert(idxs[0] < 0);
    } else {
        if exists|p: int| 0 <= p < idxs.len() && (#[trigger] idxs[p]) as int == s.len() - 1 {
            let p = choose|p: int|
                0 <= p < idxs.len() && (#[trigger] idxs[p]) as int == s.len() - 1;
            lemma_idx_sum_remove(s, idxs, p);
            let rest = idxs.remove(p);
            assert forall|a: int|
                0 <= a < rest.len() implies (#[trigger] rest[a]) < s.len() - 1 by {
                let orig = if a < p {
                    a
                } else {
                    a + 1
                };
                assert(rest[a] == idxs[orig]);
                if idxs[orig] as int == s.len() - 1 {
                    if orig < p {
                        assert(idxs[orig] != idxs[p]);
                    } else {
                        assert(idxs[p] != idxs[orig]);
                    }
                }
            }
            assert forall|a: int, b: int|
                0 <= a < b < rest.len() implies (#[trigger] rest[a]) != (#[trigger] rest[b]) by {
                let oa = if a < p {
                    a
                } else {
                    a + 1
                };
                let ob = if b < p {
                    b
                } else {
                    b + 1
                };
                assert(rest[a] == idxs[oa] && rest[b] == idxs[ob]);
            }
            lemma_idx_sum_drop_last(s, rest);
            lemma_idx_sum_le_total(s.drop_last(), rest);
        } else {
            assert forall|a: int|
                0 <= a < idxs.len() implies (#[trigger] idxs[a]) < s.len() - 1 by {
                if idxs[a] as int == s.len() - 1 {
                    assert(exists|p: int|
                        0 <= p < idxs.len() && (#[trigger] idxs[p]) as int == s.len() - 1);
                }
            }
            lemma_idx_sum_drop_last(s, idxs);
            lemma_idx_sum_le_total(s.drop_last(), idxs);
        }
    }
}

proof fn lemma_total_ids_nonneg(s: Seq<(u32, Vec<u32>)>)
    ensures
        total_ids(s) >= 0,
    decreases s.len(),
{
    if s.len() > 0 {
        lemma_total_ids_nonneg(s.drop_last());
    }
}

/// Prefix maxima of the map, in storage order.
proof fn lemma_dims_total_take(s: Seq<(u32, Vec<u32>)>, k: int)
    requires
        0 <= k < s.len(),
    ensures
        dims_total(s.take(k + 1)) == if s[k].0 as int + 1 > dims_total(s.take(k)) {
            s[k].0 as int + 1
        } else {
            dims_total(s.take(k))
        },
{
    assert(s.take(k + 1).drop_last() =~= s.take(k));
    assert(s.take(k + 1).last() == s[k]);
}

/// A freshly collected dimension map, ready to be laid out as an
/// `InvertedIndex`.
#[derive(Debug, Clone)]
pub struct NewDimVecMap {
    pub map: Vec<(u32, Vec<u32>)>,
}

impl NewDimVecMap {
    /// Wraps a collected dimension map.
    pub fn new(map: Vec<(u32, Vec<u32>)>) -> (r: NewDimVecMap)
        ensures
            r.map == map,
    {
        NewDimVecMap { map }
    }

    /// Lays the map out as a dense inverted index: dimensions sorted
    /// ascending, every absent dimension up to the largest one padded with
    /// an empty posting, every posting sorted and deduplicated.
    ///
    /// Succeeds whenever the laid-out size — the dimension span plus the
    /// total id count — fits the `u32` word offsets; it can only fail
    /// beyond that.
    #[verifier::loop_isolation(false)]
    #[verifier::rlimit(100)]
    #[verifier::spinoff_prover]
    pub fn build(&self) -> (r: Result<InvertedIndex, Error>)
        requires
            forall|k: int, l: int|
                0 <= k < l < self.map@.len() ==> (#[trigger] self.map@[k]).0 != (
                #[trigger] self.map@[l]).0,
        ensures
            self.map@.len() == 0 ==> r is Ok,
            dims_total(self.map@) + total_ids(self.map@) <= u32::MAX ==> r is Ok,
            r matches Ok(ii) ==> {
                &&& ii.wf()
                &&& ii.compact_layout()
                &&& forall|k: int|
                    0 <= k < self.map@.len() ==> (#[trigger] self.map@[k]).0 < ii.dims()
                &&& (self.map@.len() == 0 ==> ii.dims() == 0)
                &&& (self.map@.len() > 0 ==> exists|k: int|
                    0 <= k < self.map@.len() && (#[trigger] self.map@[k]).0 == ii.dims() - 1)
                &&& forall|k: int, x: u32|
                    #![trigger u32_in(self.map@[k].1@, x)]
                    0 <= k < self.map@.len() ==> (u32_in(ii.posting(self.map@[k].0 as int), x)
                        <==> u32_in(self.map@[k].1@, x))
                &&& forall|d: int|
                    0 <= d < ii.dims() && !map_has_dim(self.map@, d as u32) ==> (
                    #[trigger] ii.posting(d)).len() == 0
            },
    {
        let m = self.map.len();
        // the largest dimension present
        let mut maxd: u32 = 0;
        let mut k: usize = 0;
        while k < m
            invariant
                0 <= k <= m,
                forall|i: int| 0 <= i < k ==> (#[trigger] self.map@[i]).0 <= maxd,
                k > 0 ==> exists|i: int| 0 <= i < k && (#[trigger] self.map@[i]).0 == maxd,
                k > 0 ==> dims_total(self.map@.take(k as int)) == maxd as int + 1,
                k == 0 ==> dims_total(self.map@.take(0)) == 0,
            decreases m - k,
        {
            let d = self.map[k].0;
            proof {
                lemma_dims_total_take(self.map@, k as int);
            }
            if k == 0 || d > maxd {
                maxd = d;
            }
            proof {
                if self.map@[k as int].0 == maxd {
                    assert(exists|i: int| 0 <= i < k + 1 && (#[trigger] self.map@[i]).0 == maxd);
                } else {
                    let i = choose|i: int| 0 <= i < k && (#[trigger] self.map@[i]).0 == maxd;
                    assert(self.map@[i].0 == maxd);
                }
            }
            k += 1;
        }
        proof {
            assert(self.map@.take(m as int) =~= self.map@);
            lemma_total_ids_nonneg(self.map@);
        }
        if m > 0 && maxd >= u32::MAX {
            proof {
                assert(dims_total(self.map@) == maxd as int + 1);
            }
            return Err(Error::Decode);
        }
        let dims: usize = if m == 0 {
            0
        } else {
            maxd as usize + 1
        };
        // sort the entry indices by dimension
        let mut order: Vec<usize> = Vec::new();
        let mut idx: usize = 0;
        while idx < m
            invariant
                0 <= idx <= m,
                order@.len() == idx,
                forall|a: int| 0 <= a < idx ==> (#[trigger] order@[a]) < idx,
                forall|a: int, b: int|
                    #![trigger order@[a], order@[b]]
                    0 <= a < b < idx ==> self.map@[order@[a] as int].0 < self.map@[order@[b] as int].0,
                forall|x: int|
                    0 <= x < idx ==> #[trigger] order_contains(order@, idx as int, x),
            decreases m - idx,
        {
            let d = self.map[idx].0;
            let mut pos: usize = 0;
            while pos < order.len() && self.map[order[pos]].0 < d
                invariant
                    0 <= pos <= order@.len(),
                    forall|a: int| 0 <= a < pos ==> self.map@[(#[trigger] order@[a]) as int].0 < d,
                decreases order@.len() - pos,
            {
                pos += 1;
            }
            proof {
                if (pos as int) < order@.len() {
                    assert(self.map@[order@[pos as int] as int].0 >= d);
                    assert(order@[pos as int] < m);
                    if self.map@[order@[pos as int] as int].0 == d {
                        assert(order@[pos as int] != idx);
                    }
                }
            }
            let ghost old_order = order@;
            order.insert(pos, idx);
            proof {
                old_order.insert_ensures(pos as int, idx);
                assert forall|a: int, b: int|
                    #![trigger order@[a], order@[b]]
                    0 <= a < b < idx + 1 implies self.map@[order@[a] as int].0
                        < self.map@[order@[b] as int].0 by {
                    if (pos as int) < old_order.len() {
                        assert(self.map@[old_order[pos as int] as int].0 >= d);
                        assert(old_order[pos as int] != idx);
                        assert(self.map@[old_order[pos as int] as int].0 != d);
                    }
                    if a < pos as int {
                        assert(order@[a] == old_order[a]);
                    } else if a == pos as int {
                        assert(order@[a] == idx);
                    } else {
                        assert(order@[a] == old_order[a - 1]);
                    }
                    if b < pos as int {
                        assert(order@[b] == old_order[b]);
                    } else if b == pos as int {
                        assert(order@[b] == idx);
                    } else {
                        assert(order@[b] == old_order[b - 1]);
                    }
                    if a == pos as int && b > pos as int {
                        if b - 1 > pos as int && (pos as int) < old_order.len() {
                            assert(self.map@[old_order[pos as int] as int].0
                                < self.map@[old_order[b - 1] as int].0);
                        }
                    }
                }
                assert forall|x: int|
                    0 <= x < idx + 1 implies #[trigger] order_contains(
                    order@,
                    idx as int + 1,
                    x,
                ) by {
                    if x == idx {
                        assert(order@[pos as int] == x);
                    } else {
                        assert(order_contains(old_order, idx as int, x));
                        let a = choose|a: int| 0 <= a < idx && (#[trigger] old_order[a]) == x;
                        if a < pos as int {
                            assert(order@[a] == x);
                        } else {
                            assert(order@[a + 1] == x);
                        }
                    }
                }
            }
            idx += 1;
        }
        // emit the offset table and the word array
        let mut index: Vec<u32> = Vec::with_capacity(dims);
        let mut data: Vec<u32> = Vec::new();
        let mut t: usize = 0;
        while index.len() < dims
            invariant
                index@.len() <= dims,
                data@.len() <= u32::MAX,
                0 <= t <= m,
                order@.len() == m,
                forall|a: int| 0 <= a < m ==> (#[trigger] order@[a]) < m,
                forall|a: int, b: int|
                    #![trigger order@[a], order@[b]]
                    0 <= a < b < m ==> self.map@[order@[a] as int].0 < self.map@[order@[b] as int].0,
                forall|x: int| 0 <= x < m ==> #[trigger] order_contains(order@, m as int, x),
                forall|s: int|
                    0 <= s < t ==> self.map@[(#[trigger] order@[s]) as int].0 < index@.len(),
                forall|s: int|
                    t <= s < m ==> self.map@[(#[trigger] order@[s]) as int].0 >= index@.len(),
                data@.len() <= index@.len() + idx_sum(self.map@, order@.take(t as int)),
                m > 0 ==> dims_total(self.map@) == maxd as int + 1,
                forall|dd: int|
                    0 <= dd < index@.len() ==> (#[trigger] index@[dd]) < data@.len()
                        && index@[dd] + 1 + data@[index@[dd] as int] <= data@.len(),
                index@.len() > 0 ==> index@[0] == 0,
                forall|dd: int|
                    0 <= dd < index@.len() - 1 ==> (#[trigger] index@[dd + 1]) as int == index@[dd]
                        + 1 + data@[(index@[dd]) as int],
                index@.len() > 0 ==> data@.len() == index@[index@.len() - 1] + 1 + data@[(index@[
                    index@.len() - 1]) as int],
                index@.len() == 0 ==> data@.len() == 0,
                forall|dd: int|
                    0 <= dd < index@.len() && !map_has_dim(self.map@, dd as u32) ==> data@[(
                    #[trigger] index@[dd]) as int] == 0,
                forall|s: int|
                    #![trigger order@[s]]
                    0 <= s < t ==> {
                        let dd = self.map@[order@[s] as int].0 as int;
                        let wp = words_posting(data@, index@[dd] as int);
                        &&& u32s_sorted(wp)
                        &&& forall|x: u32|
                            u32_in(wp, x) <==> u32_in(
                                #[trigger] self.map@[order@[s] as int].1@,
                                x,
                            )
                    },
            decreases dims - index@.len(),
        {
            let cur = index.len();
            let ghost old_index = index@;
            let ghost old_data = data@;
            if t < m && {
                let o = order[t];
                self.map[o].0 == cur as u32
            } {
                let o = order[t];
                let sorted = sort_dedup_u32s(&self.map[o].1);
                proof {
                    assert(order@.take(t as int + 1).drop_last() =~= order@.take(t as int));
                    assert(order@.take(t as int + 1).last() == order@[t as int]);
                    assert(idx_sum(self.map@, order@.take(t as int + 1)) == idx_sum(
                        self.map@,
                        order@.take(t as int),
                    ) + self.map@[order@[t as int] as int].1@.len());
                }
                if data.len() >= u32::MAX as usize || sorted.len() > u32::MAX as usize - 1
                    - data.len() {
                    proof {
                        if dims_total(self.map@) + total_ids(self.map@) <= u32::MAX {
                            let pre = order@.take(t as int + 1);
                            assert forall|a: int, b: int|
                                0 <= a < b < pre.len() implies (#[trigger] pre[a]) != (
                            #[trigger] pre[b]) by {
                                assert(pre[a] == order@[a] && pre[b] == order@[b]);
                                assert(self.map@[order@[a] as int].0 < self.map@[order@[
                                    b] as int].0);
                            }
                            assert forall|a: int|
                                0 <= a < pre.len() implies (#[trigger] pre[a])
                                < self.map@.len() by {
                                assert(pre[a] == order@[a]);
                            }
                            lemma_idx_sum_le_total(self.map@, pre);
                            assert((index@.len() as int) < dims as int);
                            assert(dims as int == dims_total(self.map@));
                            assert(data@.len() + 1 + sorted@.len() <= dims_total(self.map@)
                                + total_ids(self.map@));
                        }
                    }
                    return Err(Error::Decode);
                }
                index.push(data.len() as u32);
                data.push(sorted.len() as u32);
                let ghost mid_data = data@;
                let mut sv = sorted;
                let ghost sorted_seq = sv@;
                data.append(&mut sv);
                proof {
                    let st = old_data.len() as int;
                    assert(data@.len() == old_data.len() + 1 + sorted_seq.len());
                    assert(data@[st] == sorted_seq.len() as u32);
                    assert(data@ == mid_data + sorted_seq);
                    assert forall|r_i: int|
                        0 <= r_i < sorted_seq.len() implies data@[st + 1 + r_i]
                            == sorted_seq[r_i] by {
                        assert(st + 1 + r_i == mid_data.len() + r_i);
                        assert(data@[mid_data.len() + r_i] == sorted_seq[r_i]);
                    }
                    assert(words_posting(data@, st) =~= sorted_seq);
                    // old entries untouched
                    assert forall|w: int| 0 <= w < old_data.len() implies data@[w]
                        == old_data[w] by {}
                    assert forall|dd: int|
                        0 <= dd < old_index.len() implies words_posting(
                        data@,
                        index@[dd] as int,
                    ) =~= words_posting(old_data, old_index[dd] as int) by {
                        assert(index@[dd] == old_index[dd]);
                        assert(old_index[dd] + 1 + old_data[old_index[dd] as int]
                            <= old_data.len());
                    }
                    // invariant pieces for the new dimension
                    assert(self.map@[o as int].0 == cur as u32);
                    assert forall|s: int|
                        0 <= s < t + 1 implies self.map@[(#[trigger] order@[s]) as int].0 < index@.len() by {
                        if s < t {
                            assert(self.map@[order@[s] as int].0 < old_index.len());
                        }
                    }
                    assert forall|s: int|
                        t + 1 <= s < m implies self.map@[(#[trigger] order@[s]) as int].0
                            >= index@.len() by {
                        assert(self.map@[order@[t as int] as int].0 < self.map@[order@[s] as int].0);
                    }
                    assert forall|s: int| #![trigger order@[s]] 0 <= s < t + 1 implies {
                        let dd = self.map@[order@[s] as int].0 as int;
                        let wp = words_posting(data@, index@[dd] as int);
                        &&& u32s_sorted(wp)
                        &&& forall|x: u32|
                            u32_in(wp, x) <==> u32_in(
                                #[trigger] self.map@[order@[s] as int].1@,
                                x,
                            )
                    } by {
                        if s < t {
                            let dd = self.map@[order@[s] as int].0 as int;
                            assert(dd < old_index.len());
                            assert(words_posting(data@, index@[dd] as int) == words_posting(
                                old_data,
                                old_index[dd] as int,
                            ));
                        } else {
                            assert(order@[s] == o);
                            assert(self.map@[o as int].0 as int == cur as int);
                            assert(index@[cur as int] == st as u32);
                            assert(words_posting(data@, st) == sorted_seq);
                        }
                    }
                    assert forall|dd: int|
                        0 <= dd < index@.len() && !map_has_dim(self.map@, dd as u32) implies data@[(
                        #[trigger] index@[dd]) as int] == 0 by {
                        if dd == cur as int {
                            assert(self.map@[o as int].0 == dd as u32);
                            assert(map_has_dim(self.map@, dd as u32));
                        }
                    }
                }
                t += 1;
            } else {
                // no vectors in this dimension: pad with a length-0 posting
                if data.len() > u32::MAX as usize - 1 {
                    proof {
                        if dims_total(self.map@) + total_ids(self.map@) <= u32::MAX {
                            let pre = order@.take(t as int);
                            assert forall|a: int, b: int|
                                0 <= a < b < pre.len() implies (#[trigger] pre[a]) != (
                            #[trigger] pre[b]) by {
                                assert(pre[a] == order@[a] && pre[b] == order@[b]);
                                assert(self.map@[order@[a] as int].0 < self.map@[order@[
                                    b] as int].0);
                            }
                            assert forall|a: int|
                                0 <= a < pre.len() implies (#[trigger] pre[a])
                                < self.map@.len() by {
                                assert(pre[a] == order@[a]);
                            }
                            lemma_idx_sum_le_total(self.map@, pre);
                            assert((index@.len() as int) < dims as int);
                            assert(dims as int == dims_total(self.map@));
                            assert(data@.len() + 1 <= dims_total(self.map@) + total_ids(
                                self.map@,
                            ));
                        }
                    }
                    return Err(Error::Decode);
                }
                index.push(data.len() as u32);
                data.push(0);
                proof {
                    let st = old_data.len() as int;
                    assert(data@[st] == 0);
                    assert forall|w: int| 0 <= w < old_data.len() implies data@[w]
                        == old_data[w] by {}
                    assert forall|dd: int|
                        0 <= dd < old_index.len() implies words_posting(
                        data@,
                        index@[dd] as int,
                    ) =~= words_posting(old_data, old_index[dd] as int) by {
                        assert(index@[dd] == old_index[dd]);
                        assert(old_index[dd] + 1 + old_data[old_index[dd] as int]
                            <= old_data.len());
                    }
                    // this dimension is absent from the map
                    assert(!map_has_dim(self.map@, cur as u32)) by {
                        if map_has_dim(self.map@, cur as u32) {
                            let kk = choose|kk: int|
                                0 <= kk < self.map@.len() && (#[trigger] self.map@[kk]).0
                                    == cur as u32;
                            assert(order_contains(order@, m as int, kk));
                            let a = choose|a: int| 0 <= a < m && (#[trigger] order@[a]) == kk;
                            if a < t as int {
                                assert(self.map@[order@[a] as int].0 < old_index.len());
                            } else {
                                assert(self.map@[order@[a] as int].0 >= old_index.len());
                                if t < m {
                                    if a > t as int {
                                        assert(self.map@[order@[t as int] as int].0 < self.map@[
                                            order@[a] as int].0);
                                        assert(self.map@[order@[t as int] as int].0
                                            >= old_index.len());
                                        assert(self.map@[order@[t as int] as int].0 == cur as u32);
                                    } else {
                                        assert(self.map@[order@[t as int] as int].0 == cur as u32);
                                    }
                                }
                            }
                        }
                    }
                    assert(words_posting(data@, st).len() == 0);
                    assert forall|s: int| #![trigger order@[s]] 0 <= s < t implies {
                        let dd = self.map@[order@[s] as int].0 as int;
                        let wp = words_posting(data@, index@[dd] as int);
                        &&& u32s_sorted(wp)
                        &&& forall|x: u32|
                            u32_in(wp, x) <==> u32_in(
                                #[trigger] self.map@[order@[s] as int].1@,
                                x,
                            )
                    } by {
                        let dd = self.map@[order@[s] as int].0 as int;
                        assert(dd < old_index.len());
                        assert(words_posting(data@, index@[dd] as int) == words_posting(
                            old_data,
                            old_index[dd] as int,
                        ));
                    }
                    assert forall|s: int|
                        t <= s < m implies self.map@[(#[trigger] order@[s]) as int].0
                            >= index@.len() by {
                        assert(self.map@[order@[s] as int].0 >= old_index.len());
                        assert(self.map@[order@[s] as int].0 != cur as u32);
                    }
                }
            }
        }
        let ii = InvertedIndex { index, data };
        proof {
            assert(ii.wf()) by {
                assert forall|d: int| 0 <= d < ii.dims() implies u32s_sorted(
                    #[trigger] ii.posting(d),
                ) by {
                    if map_has_dim(self.map@, d as u32) {
                        let kk = choose|kk: int|
                            0 <= kk < self.map@.len() && (#[trigger] self.map@[kk]).0 == d as u32;
                        assert(order_contains(order@, m as int, kk));
                        let a = choose|a: int| 0 <= a < m && (#[trigger] order@[a]) == kk;
                        assert(self.map@[order@[a] as int].0 == d as u32);
                        assert(ii.posting(d) == words_posting(ii.spec_words(), ii.spec_offsets()[d] as int));
                    } else {
                        assert(ii.spec_words()[(ii.spec_offsets()[d]) as int] == 0);
                        assert(ii.posting(d).len() == 0);
                    }
                }
            }
            assert forall|k: int, x: u32|
                #![trigger u32_in(self.map@[k].1@, x)]
                0 <= k < self.map@.len() implies (u32_in(ii.posting(self.map@[k].0 as int), x)
                    <==> u32_in(self.map@[k].1@, x)) by {
                assert(order_contains(order@, m as int, k));
                let a = choose|a: int| 0 <= a < m && (#[trigger] order@[a]) == k;
                assert(self.map@[order@[a] as int].0 < ii.dims());
                let dd = self.map@[k].0 as int;
                assert(ii.posting(dd) == words_posting(ii.spec_words(), ii.spec_offsets()[dd] as int));
            }
            assert forall|k: int|
                0 <= k < self.map@.len() implies (#[trigger] self.map@[k]).0 < ii.dims() by {
                assert(order_contains(order@, m as int, k));
                let a = choose|a: int| 0 <= a < m && (#[trigger] order@[a]) == k;
                assert(self.map@[order@[a] as int].0 < ii.dims());
            }
            assert forall|d: int|
                0 <= d < ii.dims() && !map_has_dim(self.map@, d as u32) implies (
            #[trigger] ii.posting(d)).len() == 0 by {
                assert(ii.spec_words()[(ii.spec_offsets()[d]) as int] == 0);
            }
            if m > 0 {
                let i = choose|i: int| 0 <= i < m && (#[trigger] self.map@[i]).0 == maxd;
                assert(self.map@[i].0 == ii.dims() - 1);
            }
        }
        Ok(ii)
    }
}

/// Every posting of a well-formed index is strictly ascending — no
/// duplicate vector ids, in particular.
pub proof fn lemma_posting_sorted(ii: &InvertedIndex, d: int, i: int, j: int)
    requires
        ii.wf(),
        0 <= i < j < ii.posting(d).len(),
    ensures
        ii.posting(d)[i] < ii.posting(d)[j],
{
    if !(0 <= d < ii.dims()) {
        assert(ii.posting(d).len() == 0);
    }
    assert(u32s_sorted(ii.posting(d)));
}

} // verus!