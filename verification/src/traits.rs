//! Byte-level serialization.
//!
//! Everything this crate persists is little-endian. The helpers here wrap
//! the fixed-width integer conversions with exact byte-sequence contracts,
//! and the `Encodable` / `Decodable` traits let callers attach their own
//! payload type to a document vector. A decoder's contract is expressed
//! through three spec functions: whether parsing at a position succeeds,
//! where it ends, and whether a given value is the parse result.

use vstd::prelude::*;

use crate::error::Error;

verus! {

pub use vstd::bytes::spec_u16_to_le_bytes;
pub use vstd::bytes::spec_u16_from_le_bytes;
pub use vstd::bytes::spec_u32_to_le_bytes;
pub use vstd::bytes::spec_u32_from_le_bytes;
pub use vstd::bytes::spec_u64_to_le_bytes;
pub use vstd::bytes::spec_u64_from_le_bytes;

// ---------------------------------------------------------------------------
// Little-endian helpers over byte buffers
// ---------------------------------------------------------------------------

pub fn push_u16_le(out: &mut Vec<u8>, x: u16)
    ensures
        final(out)@ == old(out)@ + spec_u16_to_le_bytes(x),
{
    let mut b = vstd::bytes::u16_to_le_bytes(x);
    out.append(&mut b);
}

pub fn push_u32_le(out: &mut Vec<u8>, x: u32)
    ensures
        final(out)@ == old(out)@ + spec_u32_to_le_bytes(x),
{
    let mut b = vstd::bytes::u32_to_le_bytes(x);
    out.append(&mut b);
}

pub fn push_u64_le(out: &mut Vec<u8>, x: u64)
    ensures
        final(out)@ == old(out)@ + spec_u64_to_le_bytes(x),
{
    let mut b = vstd::bytes::u64_to_le_bytes(x);
    out.append(&mut b);
}

pub fn read_u16_le(data: &[u8], pos: usize) -> (r: u16)
    requires
        pos + 2 <= data@.len(),
    ensures
        r == spec_u16_from_le_bytes(data@.subrange(pos as int, pos as int + 2)),
{
    let n = data.len();
    proof {
        assert(pos + 2 <= n);
    }
    let s = vstd::slice::slice_subrange(data, pos, pos + 2);
    vstd::bytes::u16_from_le_bytes(s)
}

pub fn read_u32_le(data: &[u8], pos: usize) -> (r: u32)
    requires
        pos + 4 <= data@.len(),
    ensures
        r == spec_u32_from_le_bytes(data@.subrange(pos as int, pos as int + 4)),
{
    let n = data.len();
    proof {
        assert(pos + 4 <= n);
    }
    let s = vstd::slice::slice_subrange(data, pos, pos + 4);
    vstd::bytes::u32_from_le_bytes(s)
}

pub fn read_u64_le(data: &[u8], pos: usize) -> (r: u64)
    requires
        pos + 8 <= data@.len(),
    ensures
        r == spec_u64_from_le_bytes(data@.subrange(pos as int, pos as int + 8)),
{
    let n = data.len();
    proof {
        assert(pos + 8 <= n);
    }
    let s = vstd::slice::slice_subrange(data, pos, pos + 8);
    vstd::bytes::u64_from_le_bytes(s)
}

// ---------------------------------------------------------------------------
// 24-bit little-endian dimensions
// ---------------------------------------------------------------------------

/// Largest value a 24-bit dimension can carry, plus one.
pub const U24_LIMIT: u32 = 0x100_0000;

pub open spec fn spec_u24_to_le_bytes(x: u32) -> Seq<u8> {
    seq![(x & 0xff) as u8, ((x >> 8) & 0xff) as u8, ((x >> 16) & 0xff) as u8]
}

pub open spec fn spec_u24_from_le_bytes(s: Seq<u8>) -> u32
    recommends
        s.len() == 3,
{
    (s[0] as u32) | (s[1] as u32) << 8 | (s[2] as u32) << 16
}

pub proof fn lemma_u24_to_from_le_bytes(x: u32)
    requires
        x < U24_LIMIT,
    ensures
        spec_u24_to_le_bytes(x).len() == 3,
        spec_u24_from_le_bytes(spec_u24_to_le_bytes(x)) == x,
{
    let s = spec_u24_to_le_bytes(x);
    assert(x < 0x100_0000 ==> ((((x & 0xff) as u8) as u32) | ((((x >> 8) & 0xff) as u8) as u32)
        << 8 | ((((x >> 16) & 0xff) as u8) as u32) << 16) == x) by (bit_vector);
    assert(s[0] == (x & 0xff) as u8);
    assert(s[1] == ((x >> 8) & 0xff) as u8);
    assert(s[2] == ((x >> 16) & 0xff) as u8);
}

pub proof fn lemma_u24_from_le_bytes_bound(s: Seq<u8>)
    requires
        s.len() == 3,
    ensures
        spec_u24_from_le_bytes(s) < U24_LIMIT,
{
    let b0 = s[0];
    let b1 = s[1];
    let b2 = s[2];
    assert(((b0 as u32) | (b1 as u32) << 8 | (b2 as u32) << 16) < 0x100_0000) by (bit_vector);
}

pub fn push_u24_le(out: &mut Vec<u8>, x: u32)
    requires
        x < U24_LIMIT,
    ensures
        final(out)@ == old(out)@ + spec_u24_to_le_bytes(x),
{
    out.push((x & 0xff) as u8);
    out.push(((x >> 8) & 0xff) as u8);
    out.push(((x >> 16) & 0xff) as u8);
    assert(out@ =~= old(out)@ + spec_u24_to_le_bytes(x));
}

pub fn read_u24_le(data: &[u8], pos: usize) -> (r: u32)
    requires
        pos + 3 <= data@.len(),
    ensures
        r == spec_u24_from_le_bytes(data@.subrange(pos as int, pos as int + 3)),
        r < U24_LIMIT,
{
    let b0 = data[pos] as u32;
    let b1 = data[pos + 1] as u32;
    let b2 = data[pos + 2] as u32;
    proof {
        lemma_u24_from_le_bytes_bound(data@.subrange(pos as int, pos as int + 3));
        assert(data@.subrange(pos as int, pos as int + 3)[0] == data@[pos as int]);
        assert(data@.subrange(pos as int, pos as int + 3)[1] == data@[pos as int + 1]);
        assert(data@.subrange(pos as int, pos as int + 3)[2] == data@[pos as int + 2]);
    }
    b0 | b1 << 8 | b2 << 16
}

// ---------------------------------------------------------------------------
// Arrays of little-endian u32 words
// ---------------------------------------------------------------------------

/// Concatenation of the 4-byte little-endian encodings of the words of `s`.
pub open spec fn u32s_le_bytes(s: Seq<u32>) -> Seq<u8>
    decreases s.len(),
{
    if s.len() == 0 {
        Seq::empty()
    } else {
        u32s_le_bytes(s.drop_last()) + spec_u32_to_le_bytes(s.last())
    }
}

pub proof fn lemma_u32s_le_bytes_len(s: Seq<u32>)
    ensures
        u32s_le_bytes(s).len() == 4 * s.len(),
    decreases s.len(),
{
    if s.len() > 0 {
        lemma_u32s_le_bytes_len(s.drop_last());
        vstd::bytes::lemma_auto_spec_u32_to_from_le_bytes();
    }
}

/// The 4-byte slot `i` of an encoded word array holds word `i`.
pub proof fn lemma_u32s_le_bytes_index(s: Seq<u32>, i: int)
    requires
        0 <= i < s.len(),
    ensures
        u32s_le_bytes(s).len() == 4 * s.len(),
        u32s_le_bytes(s).subrange(4 * i, 4 * i + 4) == spec_u32_to_le_bytes(s[i]),
    decreases s.len(),
{
    lemma_u32s_le_bytes_len(s);
    vstd::bytes::lemma_auto_spec_u32_to_from_le_bytes();
    if i == s.len() - 1 {
        lemma_u32s_le_bytes_len(s.drop_last());
        assert(u32s_le_bytes(s).subrange(4 * i, 4 * i + 4) =~= spec_u32_to_le_bytes(s.last()));
    } else {
        lemma_u32s_le_bytes_index(s.drop_last(), i);
        assert(s.drop_last()[i] == s[i]);
        lemma_u32s_le_bytes_len(s.drop_last());
        assert(u32s_le_bytes(s).subrange(4 * i, 4 * i + 4) =~= u32s_le_bytes(
            s.drop_last(),
        ).subrange(4 * i, 4 * i + 4));
    }
}

#[verifier::loop_isolation(false)]
pub fn push_u32s_le(out: &mut Vec<u8>, xs: &Vec<u32>)
    ensures
        final(out)@ == old(out)@ + u32s_le_bytes(xs@),
{
    let n = xs.len();
    let mut k: usize = 0;
    while k < n
        invariant
            0 <= k <= n,
            out@ == old(out)@ + u32s_le_bytes(xs@.take(k as int)),
        decreases n - k,
    {
        push_u32_le(out, xs[k]);
        proof {
            assert(xs@.take(k as int + 1).drop_last() =~= xs@.take(k as int));
            assert(xs@.take(k as int + 1).last() == xs@[k as int]);
        }
        k += 1;
    }
    proof {
        assert(xs@.take(n as int) =~= xs@);
    }
}

/// Reads `n` consecutive little-endian u32 words starting at `pos`.
#[verifier::loop_isolation(false)]
pub fn read_u32s_le(data: &[u8], pos: usize, n: usize) -> (r: Vec<u32>)
    requires
        pos + 4 * n <= data@.len(),
    ensures
        r@.len() == n,
        forall|i: int|
            0 <= i < n ==> r@[i] == spec_u32_from_le_bytes(
                data@.subrange(pos + 4 * i, pos + 4 * i + 4),
            ),
        u32s_le_bytes(r@) == data@.subrange(pos as int, pos + 4 * n),
{
    let len = data.len();
    proof {
        assert(pos + 4 * n <= len);
    }
    let mut r: Vec<u32> = Vec::new();
    let mut k: usize = 0;
    while k < n
        invariant
            0 <= k <= n,
            r@.len() == k,
            forall|i: int|
                0 <= i < k ==> r@[i] == spec_u32_from_le_bytes(
                    data@.subrange(pos + 4 * i, pos + 4 * i + 4),
                ),
            u32s_le_bytes(r@) == data@.subrange(pos as int, pos + 4 * k),
        decreases n - k,
    {
        let ghost prev = r@;
        let x = read_u32_le(data, pos + 4 * k);
        r.push(x);
        proof {
            assert(r@.drop_last() =~= prev);
            vstd::bytes::lemma_auto_spec_u32_to_from_le_bytes();
            assert(spec_u32_to_le_bytes(x) == data@.subrange(
                pos + 4 * k as int,
                pos + 4 * k as int + 4,
            ));
            assert(data@.subrange(pos as int, pos + 4 * (k as int + 1)) =~= data@.subrange(
                pos as int,
                pos + 4 * k as int,
            ) + data@.subrange(pos + 4 * k as int, pos + 4 * k as int + 4));
        }
        k += 1;
    }
    r
}

// ---------------------------------------------------------------------------
// Serialization traits
// ---------------------------------------------------------------------------

/// Types whose encoded form has a fixed byte width.
pub trait SizedSerialize {
    spec fn spec_size() -> int;

    fn size() -> (r: usize)
        ensures
            r == Self::spec_size(),
    ;
}

/// Types that can be encoded to bytes. `enc` is the exact byte sequence a
/// successful `encode` produces, and `enc_ok` says exactly when it
/// succeeds.
pub trait Encodable {
    spec fn enc(&self) -> Seq<u8>;

    /// Whether encoding succeeds.
    spec fn enc_ok(&self) -> bool;

    fn encode(&self) -> (r: Result<Vec<u8>, Error>)
        ensures
            r matches Ok(v) ==> v@ == self.enc(),
            r is Ok <==> self.enc_ok(),
    ;
}

/// Types that can be decoded from a byte buffer at a position.
pub trait Decodable: Sized {
    /// Whether decoding at `pos` succeeds.
    spec fn dec_ok(data: Seq<u8>, pos: int) -> bool;

    /// The position just past the decoded value, when decoding succeeds.
    spec fn dec_end(data: Seq<u8>, pos: int) -> int;

    /// Whether `self` is the value decoded at `pos`.
    spec fn dec_matches(&self, data: Seq<u8>, pos: int) -> bool;

    fn decode(data: &[u8], pos: usize) -> (r: Result<(Self, usize), Error>)
        ensures
            (r matches Ok(p) ==> Self::dec_ok(data@, pos as int) && p.1 == Self::dec_end(
                data@,
                pos as int,
            ) && p.0.dec_matches(data@, pos as int) && pos <= p.1 <= data@.len()),
            (r matches Err(_) ==> !Self::dec_ok(data@, pos as int)),
    ;
}

impl SizedSerialize for u32 {
    open spec fn spec_size() -> int {
        4
    }

    fn size() -> usize {
        4
    }
}

impl Encodable for u32 {
    open spec fn enc(&self) -> Seq<u8> {
        spec_u32_to_le_bytes(*self)
    }

    open spec fn enc_ok(&self) -> bool {
        true
    }

    fn encode(&self) -> (r: Result<Vec<u8>, Error>) {
        Ok(vstd::bytes::u32_to_le_bytes(*self))
    }
}

impl Decodable for u32 {
    open spec fn dec_ok(data: Seq<u8>, pos: int) -> bool {
        0 <= pos && pos + 4 <= data.len()
    }

    open spec fn dec_end(data: Seq<u8>, pos: int) -> int {
        pos + 4
    }

    open spec fn dec_matches(&self, data: Seq<u8>, pos: int) -> bool {
        *self == spec_u32_from_le_bytes(data.subrange(pos, pos + 4))
    }

    fn decode(data: &[u8], pos: usize) -> (r: Result<(Self, usize), Error>) {
        if data.len() >= 4 && pos <= data.len() - 4 {
            Ok((read_u32_le(data, pos), pos + 4))
        } else {
            Err(Error::Decode)
        }
    }
}

impl SizedSerialize for u64 {
    open spec fn spec_size() -> int {
        8
    }

    fn size() -> usize {
        8
    }
}

impl Encodable for u64 {
    open spec fn enc(&self) -> Seq<u8> {
        spec_u64_to_le_bytes(*self)
    }

    open spec fn enc_ok(&self) -> bool {
        true
    }

    fn encode(&self) -> (r: Result<Vec<u8>, Error>) {
        Ok(vstd::bytes::u64_to_le_bytes(*self))
    }
}

impl Decodable for u64 {
    open spec fn dec_ok(data: Seq<u8>, pos: int) -> bool {
        0 <= pos && pos + 8 <= data.len()
    }

    open spec fn dec_end(data: Seq<u8>, pos: int) -> int {
        pos + 8
    }

    open spec fn dec_matches(&self, data: Seq<u8>, pos: int) -> bool {
        *self == spec_u64_from_le_bytes(data.subrange(pos, pos + 8))
    }

    fn decode(data: &[u8], pos: usize) -> (r: Result<(Self, usize), Error>) {
        if data.len() >= 8 && pos <= data.len() - 8 {
            Ok((read_u64_le(data, pos), pos + 8))
        } else {
            Err(Error::Decode)
        }
    }
}

// ---------------------------------------------------------------------------
// Length-prefixed lists of encodable values
// ---------------------------------------------------------------------------

/// Concatenation of the encodings of the elements of `s`.
pub open spec fn enc_items<DE: Encodable>(s: Seq<DE>) -> Seq<u8>
    decreases s.len(),
{
    if s.len() == 0 {
        Seq::empty()
    } else {
        enc_items(s.drop_last()) + s.last().enc()
    }
}

/// Whether every element of `s` encodes successfully.
pub open spec fn items_enc_ok<DE: Encodable>(s: Seq<DE>) -> bool
    decreases s.len(),
{
    s.len() == 0 || (items_enc_ok(s.drop_last()) && s.last().enc_ok())
}

/// When every element encodes, so does each one.
pub proof fn lemma_items_enc_ok_index<DE: Encodable>(s: Seq<DE>, i: int)
    requires
        items_enc_ok(s),
        0 <= i < s.len(),
    ensures
        s[i].enc_ok(),
    decreases s.len(),
{
    if i < s.len() - 1 {
        lemma_items_enc_ok_index(s.drop_last(), i);
    }
}

/// Whether `n` consecutive values decode successfully starting at `pos`.
pub open spec fn items_ok<DE: Decodable>(data: Seq<u8>, pos: int, n: int) -> bool
    decreases n,
{
    n <= 0 || (DE::dec_ok(data, pos) && items_ok::<DE>(data, DE::dec_end(data, pos), n - 1))
}

/// The position just past `n` consecutive decoded values.
pub open spec fn items_end<DE: Decodable>(data: Seq<u8>, pos: int, n: int) -> int
    decreases n,
{
    if n <= 0 {
        pos
    } else {
        items_end::<DE>(data, DE::dec_end(data, pos), n - 1)
    }
}

/// Whether `s` is the list of values decoded consecutively from `pos`.
pub open spec fn items_match<DE: Decodable>(s: Seq<DE>, data: Seq<u8>, pos: int) -> bool
    decreases s.len(),
{
    s.len() == 0 || (DE::dec_ok(data, pos) && s[0].dec_matches(data, pos) && items_match(
        s.drop_first(),
        data,
        DE::dec_end(data, pos),
    ))
}

/// Splits a run of `n` decoded items at `k`: the first `k` items decide
/// where the remaining `n - k` begin.
proof fn lemma_items_split<DE: Decodable>(data: Seq<u8>, pos: int, k: int, n: int)
    requires
        0 <= k <= n,
        items_ok::<DE>(data, pos, k),
    ensures
        items_ok::<DE>(data, pos, n) <==> items_ok::<DE>(
            data,
            items_end::<DE>(data, pos, k),
            n - k,
        ),
        items_ok::<DE>(data, pos, n) ==> items_end::<DE>(data, pos, n) == items_end::<DE>(
            data,
            items_end::<DE>(data, pos, k),
            n - k,
        ),
    decreases k,
{
    if k > 0 {
        lemma_items_split::<DE>(data, DE::dec_end(data, pos), k - 1, n - 1);
    }
}

/// Appending one more matching item to a matching prefix.
proof fn lemma_items_match_snoc<DE: Decodable>(s: Seq<DE>, x: DE, data: Seq<u8>, pos: int)
    requires
        items_match(s, data, pos),
        items_ok::<DE>(data, pos, s.len() as int),
        DE::dec_ok(data, items_end::<DE>(data, pos, s.len() as int)),
        x.dec_matches(data, items_end::<DE>(data, pos, s.len() as int)),
    ensures
        items_match(s.push(x), data, pos),
        items_ok::<DE>(data, pos, s.len() as int + 1),
        items_end::<DE>(data, pos, s.len() as int + 1) == DE::dec_end(
            data,
            items_end::<DE>(data, pos, s.len() as int),
        ),
    decreases s.len(),
{
    assert(items_ok::<DE>(data, pos, s.len() as int));
    if s.len() == 0 {
        assert(items_end::<DE>(data, pos, 0) == pos);
        assert(DE::dec_ok(data, pos));
        assert(s.push(x)[0] == x);
        assert(s.push(x).drop_first() =~= Seq::<DE>::empty());
        assert(items_match(s.push(x).drop_first(), data, DE::dec_end(data, pos)));
        assert(items_match(s.push(x), data, pos));
        assert(items_ok::<DE>(data, DE::dec_end(data, pos), 0));
        assert(items_ok::<DE>(data, pos, 1));
        assert(items_end::<DE>(data, DE::dec_end(data, pos), 0) == DE::dec_end(data, pos));
        assert(items_end::<DE>(data, pos, 1) == DE::dec_end(data, pos));
    } else {
        assert(DE::dec_ok(data, pos));
        let tail = s.drop_first();
        let p2 = DE::dec_end(data, pos);
        assert(items_match(tail, data, p2));
        assert(items_ok::<DE>(data, p2, tail.len() as int));
        assert(items_end::<DE>(data, pos, s.len() as int) == items_end::<DE>(
            data,
            p2,
            tail.len() as int,
        ));
        lemma_items_match_snoc::<DE>(tail, x, data, p2);
        assert(s.push(x).drop_first() =~= tail.push(x));
        assert(s.push(x)[0] == s[0]);
        assert(items_match(s.push(x), data, pos));
        assert(items_ok::<DE>(data, pos, s.len() as int + 1));
        assert(items_end::<DE>(data, pos, s.len() as int + 1) == items_end::<DE>(
            data,
            p2,
            tail.len() as int + 1,
        ));
    }
}

impl<DE: Encodable> Encodable for Vec<DE> {
    open spec fn enc(&self) -> Seq<u8> {
        spec_u32_to_le_bytes(self@.len() as u32) + enc_items(self@)
    }

    open spec fn enc_ok(&self) -> bool {
        self@.len() <= u32::MAX && items_enc_ok(self@)
    }

    #[verifier::loop_isolation(false)]
    fn encode(&self) -> (r: Result<Vec<u8>, Error>) {
        if self.len() > u32::MAX as usize {
            return Err(Error::Decode);
        }
        let mut out = vstd::bytes::u32_to_le_bytes(self.len() as u32);
        let n = self.len();
        let mut k: usize = 0;
        while k < n
            invariant
                0 <= k <= n,
                out@ == spec_u32_to_le_bytes(n as u32) + enc_items(self@.take(k as int)),
                items_enc_ok(self@.take(k as int)),
            decreases n - k,
        {
            match (&self[k]).encode() {
                Ok(mut b) => {
                    out.append(&mut b);
                    proof {
                        assert(self@.take(k as int + 1).drop_last() =~= self@.take(k as int));
                        assert(self@.take(k as int + 1).last() == self@[k as int]);
                    }
                },
                Err(e) => {
                    proof {
                        if items_enc_ok(self@) {
                            lemma_items_enc_ok_index(self@, k as int);
                        }
                    }
                    return Err(e);
                },
            }
            k += 1;
        }
        proof {
            assert(self@.take(n as int) =~= self@);
        }
        Ok(out)
    }
}

impl<DE: Decodable> Decodable for Vec<DE> {
    open spec fn dec_ok(data: Seq<u8>, pos: int) -> bool {
        &&& 0 <= pos
        &&& pos + 4 <= data.len()
        &&& items_ok::<DE>(
            data,
            pos + 4,
            spec_u32_from_le_bytes(data.subrange(pos, pos + 4)) as int,
        )
    }

    open spec fn dec_end(data: Seq<u8>, pos: int) -> int {
        items_end::<DE>(data, pos + 4, spec_u32_from_le_bytes(data.subrange(pos, pos + 4)) as int)
    }

    open spec fn dec_matches(&self, data: Seq<u8>, pos: int) -> bool {
        &&& self@.len() == spec_u32_from_le_bytes(data.subrange(pos, pos + 4))
        &&& items_match(self@, data, pos + 4)
    }

    #[verifier::loop_isolation(false)]
    fn decode(data: &[u8], pos: usize) -> (r: Result<(Self, usize), Error>) {
        if !(data.len() >= 4 && pos <= data.len() - 4) {
            return Err(Error::Decode);
        }
        let n = read_u32_le(data, pos) as usize;
        let ghost n_int = n as int;
        let mut out: Vec<DE> = Vec::new();
        let mut cur: usize = pos + 4;
        let mut k: usize = 0;
        while k < n
            invariant
                0 <= k <= n,
                out@.len() == k,
                pos + 4 <= cur <= data@.len(),
                items_ok::<DE>(data@, pos as int + 4, k as int),
                items_end::<DE>(data@, pos as int + 4, k as int) == cur as int,
                items_match(out@, data@, pos as int + 4),
            decreases n - k,
        {
            match DE::decode(data, cur) {
                Ok(p) => {
                    proof {
                        lemma_items_match_snoc::<DE>(out@, p.0, data@, pos as int + 4);
                    }
                    out.push(p.0);
                    cur = p.1;
                },
                Err(_) => {
                    proof {
                        lemma_items_split::<DE>(data@, pos as int + 4, k as int, n_int);
                    }
                    return Err(Error::Decode);
                },
            }
            k += 1;
        }
        proof {
            lemma_items_split::<DE>(data@, pos as int + 4, n_int, n_int);
        }
        Ok((out, cur))
    }
}

} // verus!
