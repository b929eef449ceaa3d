//! Append-only indexed byte store.
//!
//! A `MemFile` is a flat byte buffer plus one `u32` offset per record; the
//! record `i` is the byte range between `offsets[i]` and the next offset
//! (or the end of the buffer for the last record). Both the term dictionary
//! and the vector store keep their encoded records in one.
//!
//! Serialized form, little-endian:
//! `[u64 record count] [u32 offset]* [u64 data length] [data bytes]`.

use vstd::prelude::*;

use crate::error::Error;
use crate::traits::{
    push_u32s_le, push_u64_le, read_u32s_le, read_u64_le, spec_u32_from_le_bytes,
    spec_u64_from_le_bytes, spec_u64_to_le_bytes, u32s_le_bytes,
};

verus! {

/// A flat byte buffer with one offset per record.
#[derive(Debug, Clone)]
pub struct MemFile {
    data: Vec<u8>,
    offsets: Vec<u32>,
}

impl MemFile {
    pub closed spec fn spec_data(&self) -> Seq<u8> {
        self.data@
    }

    pub closed spec fn spec_offsets(&self) -> Seq<u32> {
        self.offsets@
    }

    /// Well-formed: offsets are non-decreasing and stay inside the buffer,
    /// and the buffer size fits the `u32` offsets.
    pub open spec fn wf(&self) -> bool {
        &&& self.spec_data().len() <= u32::MAX
        &&& forall|i: int|
            0 <= i < self.spec_offsets().len() ==> (#[trigger] self.spec_offsets()[i])
                <= self.spec_data().len()
        &&& forall|i: int, j: int|
            0 <= i < j < self.spec_offsets().len() ==> (#[trigger] self.spec_offsets()[i]) <= (
            #[trigger] self.spec_offsets()[j])
    }

    /// Number of records.
    pub open spec fn spec_len(&self) -> int {
        self.spec_offsets().len() as int
    }

    /// Where record `i` ends: the next offset, or the end of the buffer.
    pub open spec fn record_end(&self, i: int) -> int {
        if i + 1 < self.spec_offsets().len() {
            self.spec_offsets()[i + 1] as int
        } else {
            self.spec_data().len() as int
        }
    }

    /// The bytes of record `i`.
    pub open spec fn record(&self, i: int) -> Seq<u8> {
        self.spec_data().subrange(self.spec_offsets()[i] as int, self.record_end(i))
    }

    /// All records, in insertion order.
    pub open spec fn records(&self) -> Seq<Seq<u8>> {
        Seq::new(self.spec_offsets().len(), |i: int| self.record(i))
    }

    /// Creates an empty store.
    pub fn new() -> (r: MemFile)
        ensures
            r.wf(),
            r.records() == Seq::<Seq<u8>>::empty(),
            r.spec_len() == 0,
            r.spec_data().len() == 0,
    {
        let r = MemFile { data: Vec::new(), offsets: Vec::new() };
        proof {
            assert(r.records() =~= Seq::<Seq<u8>>::empty());
        }
        r
    }

    /// Creates an empty store with space booked for `n` records.
    pub fn with_capacity(n: usize) -> (r: MemFile)
        ensures
            r.wf(),
            r.records() == Seq::<Seq<u8>>::empty(),
            r.spec_len() == 0,
            r.spec_data().len() == 0,
    {
        let r = MemFile { data: Vec::new(), offsets: Vec::with_capacity(n) };
        proof {
            assert(r.records() =~= Seq::<Seq<u8>>::empty());
        }
        r
    }

    /// Number of bytes in the flat buffer.
    pub fn byte_size(&self) -> (r: usize)
        ensures
            r == self.spec_data().len(),
    {
        self.data.len()
    }

    /// Number of records in the store.
    pub fn len(&self) -> (r: usize)
        ensures
            r == self.spec_len(),
    {
        self.offsets.len()
    }

    /// Appends a record and returns its index.
    pub fn insert(&mut self, rec: &[u8]) -> (id: usize)
        requires
            old(self).wf(),
            old(self).spec_data().len() + rec@.len() <= u32::MAX,
        ensures
            final(self).wf(),
            final(self).records() == old(self).records().push(rec@),
            id == old(self).spec_len(),
    {
        let id = self.offsets.len();
        let start = self.data.len() as u32;
        self.offsets.push(start);
        let mut bytes = vstd::slice::slice_to_vec(rec);
        self.data.append(&mut bytes);
        proof {
            assert forall|i: int| 0 <= i < old(self).spec_len() implies self.record(i) == old(
                self,
            ).record(i) by {
                assert(self.spec_offsets()[i] == old(self).spec_offsets()[i]);
                assert(self.record_end(i) == old(self).record_end(i));
                assert(self.record(i) =~= old(self).record(i));
            }
            assert(self.record(id as int) =~= rec@);
            assert(self.records() =~= old(self).records().push(rec@));
        }
        id
    }

    /// Returns a copy of record `i`, or `None` past the end.
    pub fn get(&self, i: usize) -> (r: Option<Vec<u8>>)
        requires
            self.wf(),
        ensures
            i < self.spec_len() ==> (r matches Some(v) && v@ == self.record(i as int)),
            i >= self.spec_len() ==> r is None,
    {
        if i >= self.offsets.len() {
            return None;
        }
        let start = self.offsets[i] as usize;
        let end = if i + 1 < self.offsets.len() {
            self.offsets[i + 1] as usize
        } else {
            self.data.len()
        };
        proof {
            assert(self.spec_offsets()[i as int] <= self.spec_data().len());
            if i + 1 < self.spec_offsets().len() {
                assert(self.spec_offsets()[i as int] <= self.spec_offsets()[i as int + 1]);
                assert(self.spec_offsets()[i as int + 1] <= self.spec_data().len());
            }
        }
        let s = vstd::slice::slice_subrange(self.data.as_slice(), start, end);
        Some(vstd::slice::slice_to_vec(s))
    }

    /// Returns copies of all records, in insertion order.
    #[verifier::loop_isolation(false)]
    pub fn iter(&self) -> (r: Vec<Vec<u8>>)
        requires
            self.wf(),
        ensures
            r@.len() == self.spec_len(),
            forall|i: int| 0 <= i < r@.len() ==> (#[trigger] r@[i])@ == self.record(i),
    {
        let n = self.offsets.len();
        let mut r: Vec<Vec<u8>> = Vec::new();
        let mut k: usize = 0;
        while k < n
            invariant
                0 <= k <= n,
                r@.len() == k,
                forall|i: int| 0 <= i < k ==> (#[trigger] r@[i])@ == self.record(i),
            decreases n - k,
        {
            let start = self.offsets[k] as usize;
            let end = if k + 1 < self.offsets.len() {
                self.offsets[k + 1] as usize
            } else {
                self.data.len()
            };
            proof {
                assert(self.spec_offsets()[k as int] <= self.spec_data().len());
                if k + 1 < self.spec_offsets().len() {
                    assert(self.spec_offsets()[k as int] <= self.spec_offsets()[k as int + 1]);
                    assert(self.spec_offsets()[k as int + 1] <= self.spec_data().len());
                }
            }
            let s = vstd::slice::slice_subrange(self.data.as_slice(), start, end);
            r.push(vstd::slice::slice_to_vec(s));
            k += 1;
        }
        r
    }

    /// The exact serialized form of the store.
    pub open spec fn spec_encoding(&self) -> Seq<u8> {
        spec_u64_to_le_bytes(self.spec_offsets().len() as u64) + u32s_le_bytes(self.spec_offsets())
            + spec_u64_to_le_bytes(self.spec_data().len() as u64) + self.spec_data()
    }

    /// Serializes the store.
    pub fn encode(&self) -> (r: Vec<u8>)
        ensures
            r@ == self.spec_encoding(),
    {
        let mut out: Vec<u8> = Vec::new();
        push_u64_le(&mut out, self.offsets.len() as u64);
        push_u32s_le(&mut out, &self.offsets);
        push_u64_le(&mut out, self.data.len() as u64);
        let mut bytes = vstd::slice::slice_to_vec(self.data.as_slice());
        out.append(&mut bytes);
        proof {
            assert(out@ =~= self.spec_encoding());
        }
        out
    }

    /// Structural validity of a serialized store at `pos`: both length
    /// prefixes in bounds, offsets non-decreasing and inside the data.
    pub open spec fn parse_ok(data: Seq<u8>, pos: int) -> bool {
        let n = spec_u64_from_le_bytes(data.subrange(pos, pos + 8)) as int;
        let dlen = spec_u64_from_le_bytes(data.subrange(pos + 8 + 4 * n, pos + 16 + 4 * n)) as int;
        &&& 0 <= pos
        &&& pos + 8 <= data.len()
        &&& pos + 16 + 4 * n <= data.len()
        &&& dlen <= u32::MAX
        &&& pos + 16 + 4 * n + dlen <= data.len()
        &&& forall|i: int|
            0 <= i < n ==> spec_u32_from_le_bytes(
                #[trigger] data.subrange(pos + 8 + 4 * i, pos + 8 + 4 * i + 4),
            ) <= dlen
        &&& forall|i: int, j: int|
            0 <= i < j < n ==> spec_u32_from_le_bytes(
                #[trigger] data.subrange(pos + 8 + 4 * i, pos + 8 + 4 * i + 4),
            ) <= spec_u32_from_le_bytes(
                #[trigger] data.subrange(pos + 8 + 4 * j, pos + 8 + 4 * j + 4),
            )
    }

    /// The position just past a serialized store at `pos`.
    pub open spec fn parse_end(data: Seq<u8>, pos: int) -> int {
        let n = spec_u64_from_le_bytes(data.subrange(pos, pos + 8)) as int;
        let dlen = spec_u64_from_le_bytes(data.subrange(pos + 8 + 4 * n, pos + 16 + 4 * n)) as int;
        pos + 16 + 4 * n + dlen
    }

    /// Deserializes a store, validating its structure.
    #[verifier::loop_isolation(false)]
    pub fn decode(data: &[u8], pos: usize) -> (r: Result<(MemFile, usize), Error>)
        ensures
            r matches Ok(p) ==> {
                let n = spec_u64_from_le_bytes(data@.subrange(pos as int, pos as int + 8)) as int;
                &&& Self::parse_ok(data@, pos as int)
                &&& p.1 == Self::parse_end(data@, pos as int)
                &&& pos <= p.1 <= data@.len()
                &&& p.0.wf()
                &&& p.0.spec_offsets().len() == n
                &&& u32s_le_bytes(p.0.spec_offsets()) == data@.subrange(
                    pos as int + 8,
                    pos as int + 8 + 4 * n,
                )
                &&& forall|i: int|
                    0 <= i < n ==> (#[trigger] p.0.spec_offsets()[i]) == spec_u32_from_le_bytes(
                        data@.subrange(pos as int + 8 + 4 * i, pos as int + 8 + 4 * i + 4),
                    )
                &&& p.0.spec_data() == data@.subrange(pos as int + 16 + 4 * n, p.1 as int)
                &&& p.0.spec_encoding() == data@.subrange(pos as int, p.1 as int)
            },
            r is Err ==> !Self::parse_ok(data@, pos as int),
    {
        let len = data.len();
        if !(len >= 16 && pos <= len - 8) {
            return Err(Error::Decode);
        }
        let n64 = read_u64_le(data, pos);
        if n64 > ((len - 16) as u64) / 4 {
            return Err(Error::Decode);
        }
        let n = n64 as usize;
        if pos > len - 16 - 4 * n {
            return Err(Error::Decode);
        }
        let offsets = read_u32s_le(data, pos + 8, n);
        let dlen64 = read_u64_le(data, pos + 8 + 4 * n);
        if dlen64 > u32::MAX as u64 {
            return Err(Error::Decode);
        }
        let dlen = dlen64 as usize;
        if dlen > len - (pos + 16 + 4 * n) {
            return Err(Error::Decode);
        }
        // validate the offsets: non-decreasing, inside the data
        let mut k: usize = 0;
        while k < n
            invariant
                0 <= k <= n,
                n == offsets@.len(),
                forall|i: int| 0 <= i < k ==> (#[trigger] offsets@[i]) <= dlen,
                forall|i: int, j: int|
                    0 <= i < j < k ==> (#[trigger] offsets@[i]) <= (#[trigger] offsets@[j]),
            decreases n - k,
        {
            if offsets[k] as usize > dlen {
                return Err(Error::Decode);
            }
            if k > 0 && offsets[k] < offsets[k - 1] {
                return Err(Error::Decode);
            }
            proof {
                assert forall|i: int, j: int|
                    0 <= i < j < k + 1 implies (#[trigger] offsets@[i]) <= (
                #[trigger] offsets@[j]) by {
                    if j == k as int && i < k as int - 1 {
                        assert(offsets@[i] <= offsets@[k as int - 1]);
                    }
                }
            }
            k += 1;
        }
        let start = pos + 16 + 4 * n;
        let s = vstd::slice::slice_subrange(data, start, start + dlen);
        let body = vstd::slice::slice_to_vec(s);
        let m = MemFile { data: body, offsets };
        proof {
            assert(m.wf());
            let p = pos as int;
            assert forall|i: int|
                0 <= i < n implies spec_u32_from_le_bytes(
                #[trigger] data@.subrange(p + 8 + 4 * i, p + 8 + 4 * i + 4),
            ) <= dlen by {
                assert(m.spec_offsets()[i] == spec_u32_from_le_bytes(
                    data@.subrange(p + 8 + 4 * i, p + 8 + 4 * i + 4),
                ));
            }
            assert forall|i: int, j: int|
                0 <= i < j < n implies spec_u32_from_le_bytes(
                #[trigger] data@.subrange(p + 8 + 4 * i, p + 8 + 4 * i + 4),
            ) <= spec_u32_from_le_bytes(
                #[trigger] data@.subrange(p + 8 + 4 * j, p + 8 + 4 * j + 4),
            ) by {
                assert(m.spec_offsets()[i] == spec_u32_from_le_bytes(
                    data@.subrange(p + 8 + 4 * i, p + 8 + 4 * i + 4),
                ));
                assert(m.spec_offsets()[j] == spec_u32_from_le_bytes(
                    data@.subrange(p + 8 + 4 * j, p + 8 + 4 * j + 4),
                ));
                assert(m.spec_offsets()[i] <= m.spec_offsets()[j]);
            }
            assert(Self::parse_ok(data@, p));
            vstd::bytes::lemma_auto_spec_u64_to_from_le_bytes();
            assert(spec_u64_to_le_bytes(n64) == data@.subrange(p, p + 8)) by {
                assert(n64 == spec_u64_from_le_bytes(data@.subrange(p, p + 8)));
                assert(data@.subrange(p, p + 8).len() == 8);
            }
            assert(spec_u64_to_le_bytes(dlen64) == data@.subrange(p + 8 + 4 * n, p + 16 + 4 * n))
                by {
                assert(dlen64 == spec_u64_from_le_bytes(
                    data@.subrange(p + 8 + 4 * n, p + 16 + 4 * n),
                ));
                assert(data@.subrange(p + 8 + 4 * n, p + 16 + 4 * n).len() == 8);
            }
            assert(m.spec_encoding() =~= data@.subrange(p, p + 16 + 4 * n + dlen));
        }
        Ok((m, start + dlen))
    }
}

} // verus!
