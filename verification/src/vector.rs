//! Sparse vectors.
//!
//! A `Vector` is a sequence of `(dimension, weight)` pairs sorted strictly
//! ascending by dimension — so dimensions are unique — together with a
//! cached Euclidean length. Weights and the length are IEEE 754
//! single-precision bit patterns carried as `u32`; all arithmetic on them
//! happens outside this crate, and the crate moves them around bit-exactly.

use vstd::prelude::*;

verus! {

/// The IEEE 754 single-precision bit pattern of the weight `1.0`, the
/// initial weight of every dimension of a freshly inserted document.
pub const WEIGHT_ONE: u32 = 0x3F80_0000;

/// Dimensions are strictly ascending, hence unique.
pub open spec fn pairs_sorted(s: Seq<(u32, u32)>) -> bool {
    forall|i: int, j: int|
        #![trigger s[i], s[j]]
        0 <= i < j < s.len() ==> s[i].0 < s[j].0
}

/// Some pair of `s` lies in dimension `dim`.
pub open spec fn seq_has_dim(s: Seq<(u32, u32)>, dim: u32) -> bool {
    exists|i: int| 0 <= i < s.len() && (#[trigger] s[i]).0 == dim
}

/// Some pair of `s` at index `from` or later lies in dimension `dim`.
pub open spec fn has_dim_from(s: Seq<(u32, u32)>, from: int, dim: u32) -> bool {
    exists|k: int| from <= k < s.len() && (#[trigger] s[k]).0 == dim
}

/// Some triple of `s` lies in dimension `dim`.
pub open spec fn trip_has_dim(s: Seq<(u32, u32, u32)>, dim: u32) -> bool {
    exists|k: int| 0 <= k < s.len() && (#[trigger] s[k]).0 == dim
}

/// The weight of the first pair of `s` in dimension `dim` (`0` when absent).
/// On a sorted sequence this is the weight of the unique pair in `dim`.
pub open spec fn first_weight(s: Seq<(u32, u32)>, dim: u32) -> u32
    decreases s.len(),
{
    if s.len() == 0 {
        0
    } else if s[0].0 == dim {
        s[0].1
    } else {
        first_weight(s.drop_first(), dim)
    }
}

/// If `dim` first occurs at index `k`, `first_weight` picks that weight.
pub proof fn lemma_first_weight_at(s: Seq<(u32, u32)>, k: int)
    requires
        0 <= k < s.len(),
        forall|i: int| 0 <= i < k ==> (#[trigger] s[i]).0 != s[k].0,
    ensures
        first_weight(s, s[k].0) == s[k].1,
    decreases k,
{
    if k == 0 {
    } else {
        assert(s[0].0 != s[k].0);
        assert forall|i: int| 0 <= i < k - 1 implies (#[trigger] s.drop_first()[i]).0 != s
            .drop_first()[k - 1].0 by {
            assert(s.drop_first()[i] == s[i + 1]);
            assert(s.drop_first()[k - 1] == s[k]);
        }
        lemma_first_weight_at(s.drop_first(), k - 1);
        assert(s.drop_first()[k - 1] == s[k]);
    }
}

/// On a sorted sequence, every pair's weight is `first_weight` of its
/// dimension.
pub proof fn lemma_sorted_weight(s: Seq<(u32, u32)>, k: int)
    requires
        pairs_sorted(s),
        0 <= k < s.len(),
    ensures
        first_weight(s, s[k].0) == s[k].1,
{
    assert forall|i: int| 0 <= i < k implies (#[trigger] s[i]).0 != s[k].0 by {
        assert(s[i].0 < s[k].0);
    }
    lemma_first_weight_at(s, k);
}

/// The value `first_weight` picks is the weight of an actual pair.
pub proof fn lemma_first_weight_entry(s: Seq<(u32, u32)>, d: u32)
    requires
        seq_has_dim(s, d),
    ensures
        exists|m: int|
            0 <= m < s.len() && (#[trigger] s[m]).0 == d && s[m].1 == first_weight(s, d),
    decreases s.len(),
{
    if s.len() > 0 {
        if s[0].0 == d {
            assert(s[0].1 == first_weight(s, d));
        } else {
            assert(seq_has_dim(s.drop_first(), d)) by {
                let k = choose|k: int| 0 <= k < s.len() && (#[trigger] s[k]).0 == d;
                assert(s.drop_first()[k - 1].0 == d);
            }
            lemma_first_weight_entry(s.drop_first(), d);
            let m = choose|m: int|
                0 <= m < s.drop_first().len() && (#[trigger] s.drop_first()[m]).0 == d
                    && s.drop_first()[m].1 == first_weight(s.drop_first(), d);
            assert(s[m + 1] == s.drop_first()[m]);
        }
    }
}

/// A sorted pair list whose dimension set and per-dimension weights are
/// both read off a reference list is fully determined: two such lists are
/// equal.
pub proof fn lemma_sorted_pairs_determined(
    a: Seq<(u32, u32)>,
    b: Seq<(u32, u32)>,
    m: Seq<(u32, u32)>,
)
    requires
        pairs_sorted(a),
        pairs_sorted(b),
        forall|d: u32| seq_has_dim(a, d) <==> seq_has_dim(m, d),
        forall|d: u32| seq_has_dim(b, d) <==> seq_has_dim(m, d),
        forall|i: int| 0 <= i < a.len() ==> (#[trigger] a[i]).1 == first_weight(m, a[i].0),
        forall|i: int| 0 <= i < b.len() ==> (#[trigger] b[i]).1 == first_weight(m, b[i].0),
    ensures
        a == b,
{
    let da = Seq::new(a.len(), |i: int| a[i].0);
    let db = Seq::new(b.len(), |i: int| b[i].0);
    assert(crate::inv_index::u32s_sorted(da)) by {
        assert(forall|i: int, j: int|
            #![trigger da[i], da[j]]
            0 <= i < j < da.len() ==> a[i].0 < a[j].0);
    }
    assert(crate::inv_index::u32s_sorted(db)) by {
        assert(forall|i: int, j: int|
            #![trigger db[i], db[j]]
            0 <= i < j < db.len() ==> b[i].0 < b[j].0);
    }
    assert forall|x: u32|
        crate::inv_index::u32_in(da, x) <==> crate::inv_index::u32_in(db, x) by {
        assert(crate::inv_index::u32_in(da, x) <==> seq_has_dim(a, x)) by {
            if crate::inv_index::u32_in(da, x) {
                let i = choose|i: int| 0 <= i < da.len() && da[i] == x;
                assert(a[i].0 == x);
            }
            if seq_has_dim(a, x) {
                let i = choose|i: int| 0 <= i < a.len() && (#[trigger] a[i]).0 == x;
                assert(da[i] == x);
            }
        }
        assert(crate::inv_index::u32_in(db, x) <==> seq_has_dim(b, x)) by {
            if crate::inv_index::u32_in(db, x) {
                let i = choose|i: int| 0 <= i < db.len() && db[i] == x;
                assert(b[i].0 == x);
            }
            if seq_has_dim(b, x) {
                let i = choose|i: int| 0 <= i < b.len() && (#[trigger] b[i]).0 == x;
                assert(db[i] == x);
            }
        }
    }
    crate::inv_index::lemma_sorted_unique_same_members(da, db);
    assert(da == db);
    assert(da.len() == a.len());
    assert(db.len() == b.len());
    assert(a.len() == b.len());
    assert forall|i: int| 0 <= i < a.len() implies a[i] == b[i] by {
        assert(da[i] == db[i]);
        assert(a[i].0 == b[i].0);
        assert(a[i].1 == first_weight(m, a[i].0));
        assert(b[i].1 == first_weight(m, b[i].0));
    }
    assert(a =~= b);
}

/// A sparse vector: sorted `(dimension, weight)` pairs plus the cached
/// Euclidean length, both weights and length as `f32` bit patterns.
#[derive(Clone, Debug)]
pub struct Vector {
    inner: Vec<(u32, u32)>,
    length: u32,
}

impl Vector {
    pub closed spec fn spec_pairs(&self) -> Seq<(u32, u32)> {
        self.inner@
    }

    pub closed spec fn spec_length(&self) -> u32 {
        self.length
    }

    /// Well-formed: pairs strictly ascending by dimension.
    pub open spec fn wf(&self) -> bool {
        pairs_sorted(self.spec_pairs())
    }

    pub open spec fn spec_has_dim(&self, dim: u32) -> bool {
        seq_has_dim(self.spec_pairs(), dim)
    }

    /// The weight stored in dimension `dim` (`0` when absent).
    pub open spec fn spec_weight(&self, dim: u32) -> u32 {
        first_weight(self.spec_pairs(), dim)
    }

    /// Creates a new empty vector.
    pub fn new_empty() -> (r: Vector)
        ensures
            r.wf(),
            r.spec_pairs() == Seq::<(u32, u32)>::empty(),
            r.spec_length() == 0,
    {
        Vector { inner: Vec::new(), length: 0 }
    }

    /// Create a new vector from raw values. Values don't have to be ordered:
    /// pairs are sorted by dimension and deduplicated keeping, for each
    /// dimension, the first pair encountered. The cached length is reset to
    /// zero bits; callers with a floating-point layer recompute it and store
    /// it with `set_length`.
    pub fn create_new_raw(sparse: Vec<(u32, u32)>) -> (r: Vector)
        ensures
            r.wf(),
            r.spec_length() == 0,
            forall|d: u32| r.spec_has_dim(d) <==> seq_has_dim(sparse@, d),
            forall|i: int|
                0 <= i < r.spec_pairs().len() ==> (#[trigger] r.spec_pairs()[i]).1 == first_weight(
                    sparse@,
                    r.spec_pairs()[i].0,
                ),
    {
        Vector { inner: sort_dedup_pairs(&sparse), length: 0 }
    }

    /// Create a new vector from raw values. `sparse` must be sorted strictly
    /// ascending by dimension; `length` is taken at face value.
    pub fn new_raw(sparse: Vec<(u32, u32)>, length: u32) -> (r: Vector)
        requires
            pairs_sorted(sparse@),
        ensures
            r.wf(),
            r.spec_pairs() == sparse@,
            r.spec_length() == length,
    {
        Vector { inner: sparse, length }
    }

    /// Returns the reference to the inner pairs.
    pub fn sparse_vec(&self) -> (r: &Vec<(u32, u32)>)
        ensures
            r@ == self.spec_pairs(),
    {
        &self.inner
    }

    /// Returns true if the vector is zero.
    pub fn is_empty(&self) -> (r: bool)
        ensures
            r == (self.spec_pairs().len() == 0),
    {
        self.inner.is_empty()
    }

    /// Returns the amount of dimensions the vector uses.
    pub fn dimen_count(&self) -> (r: usize)
        ensures
            r == self.spec_pairs().len(),
    {
        self.inner.len()
    }

    /// The cached vector length (`f32` bits).
    pub fn get_length(&self) -> (r: u32)
        ensures
            r == self.spec_length(),
    {
        self.length
    }

    /// Stores a newly computed vector length (`f32` bits). The caller's
    /// floating-point layer computes `sqrt(sum of squared weights)`.
    pub fn set_length(&mut self, length: u32)
        ensures
            final(self).spec_pairs() == old(self).spec_pairs(),
            final(self).spec_length() == length,
    {
        self.length = length;
    }

    /// All dimensions of the vector, in stored order.
    pub fn vec_indices(&self) -> (r: Vec<u32>)
        ensures
            r@.len() == self.spec_pairs().len(),
            forall|i: int| 0 <= i < r@.len() ==> r@[i] == (#[trigger] self.spec_pairs()[i]).0,
    {
        let mut r: Vec<u32> = Vec::new();
        let n = self.inner.len();
        let mut k: usize = 0;
        while k < n
            invariant
                0 <= k <= n,
                n == self.inner@.len(),
                r@.len() == k,
                forall|i: int| 0 <= i < k ==> r@[i] == (#[trigger] self.inner@[i]).0,
            decreases n - k,
        {
            r.push(self.inner[k].0);
            k += 1;
        }
        r
    }

    /// All values of the vector (`f32` bits), in stored order.
    pub fn vec_values(&self) -> (r: Vec<u32>)
        ensures
            r@.len() == self.spec_pairs().len(),
            forall|i: int| 0 <= i < r@.len() ==> r@[i] == (#[trigger] self.spec_pairs()[i]).1,
    {
        let mut r: Vec<u32> = Vec::new();
        let n = self.inner.len();
        let mut k: usize = 0;
        while k < n
            invariant
                0 <= k <= n,
                n == self.inner@.len(),
                r@.len() == k,
                forall|i: int| 0 <= i < k ==> r@[i] == (#[trigger] self.inner@[i]).1,
            decreases n - k,
        {
            r.push(self.inner[k].1);
            k += 1;
        }
        r
    }

    /// Re-sorts and deduplicates the pairs after a batch of raw mutations.
    /// The cached length is left as it is; callers recompute it through
    /// their floating-point layer and store it with `set_length`.
    pub fn update(&mut self)
        ensures
            final(self).wf(),
            final(self).spec_length() == old(self).spec_length(),
            forall|d: u32| final(self).spec_has_dim(d) <==> seq_has_dim(old(self).spec_pairs(), d),
            forall|i: int|
                0 <= i < final(self).spec_pairs().len()
                    ==> (#[trigger] final(self).spec_pairs()[i]).1
                    == first_weight(old(self).spec_pairs(), final(self).spec_pairs()[i].0),
    {
        self.inner = sort_dedup_pairs(&self.inner);
    }

    /// Returns true if the vector has a pair in dimension `dim`.
    /// Binary search over the sorted pairs.
    #[verifier::loop_isolation(false)]
    pub fn has_dim(&self, dim: u32) -> (r: bool)
        requires
            self.wf(),
        ensures
            r == self.spec_has_dim(dim),
    {
        let mut left: usize = 0;
        let mut right: usize = self.inner.len();
        while left < right
            invariant
                0 <= left <= right <= self.inner@.len(),
                forall|i: int| 0 <= i < left ==> (#[trigger] self.inner@[i]).0 < dim,
                forall|i: int|
                    right <= i < self.inner@.len() ==> (#[trigger] self.inner@[i]).0 > dim,
            decreases right - left,
        {
            let mid = left + (right - left) / 2;
            let d = self.inner[mid].0;
            if d == dim {
                proof {
                    assert(self.inner@[mid as int].0 == dim);
                }
                return true;
            } else if d < dim {
                left = mid + 1;
            } else {
                right = mid;
            }
        }
        proof {
            if seq_has_dim(self.inner@, dim) {
                let ki = choose|i: int|
                    0 <= i < self.inner@.len() && (#[trigger] self.inner@[i]).0 == dim;
                assert(ki < left || ki >= right);
            }
        }
        false
    }

    /// Deletes the pair in dimension `dim`, if present. The caller must
    /// recompute the length afterwards.
    #[verifier::loop_isolation(false)]
    pub fn delete_dim(&mut self, dim: u32)
        ensures
            final(self).spec_pairs() == old(self).spec_pairs().filter(|p: (u32, u32)| p.0 != dim),
            final(self).spec_length() == old(self).spec_length(),
            old(self).wf() ==> final(self).wf(),
    {
        let n = self.inner.len();
        let mut out: Vec<(u32, u32)> = Vec::new();
        let mut k: usize = 0;
        while k < n
            invariant
                0 <= k <= n,
                out@ == self.inner@.take(k as int).filter(|p: (u32, u32)| p.0 != dim),
                self.wf() ==> pairs_sorted(out@),
                self.wf() ==> forall|l: int, m: int|
                    0 <= l < out@.len() && k <= m < n ==> (#[trigger] out@[l]).0 < (
                    #[trigger] self.inner@[m]).0,
            decreases n - k,
        {
            let p = self.inner[k];
            proof {
                reveal_with_fuel(Seq::filter, 2);
                assert(self.inner@.take(k as int + 1).drop_last() =~= self.inner@.take(k as int));
                assert(self.inner@.take(k as int + 1).last() == self.inner@[k as int]);
            }
            if p.0 != dim {
                out.push(p);
            }
            k += 1;
        }
        proof {
            assert(self.inner@.take(n as int) =~= self.inner@);
        }
        self.inner = out;
    }

    /// Returns `true` if both vectors could potentially overlap: neither is
    /// empty and their dimension ranges intersect.
    pub fn could_overlap(&self, other: &Vector) -> (r: bool)
        requires
            self.wf(),
            other.wf(),
        ensures
            r == (self.spec_pairs().len() > 0 && other.spec_pairs().len() > 0
                && self.spec_pairs()[0].0 <= other.spec_pairs().last().0 && other.spec_pairs()[0].0
                <= self.spec_pairs().last().0),
    {
        if self.inner.len() == 0 || other.inner.len() == 0 {
            return false;
        }
        let a_first = self.inner[0].0;
        let a_last = self.inner[self.inner.len() - 1].0;
        let b_first = other.inner[0].0;
        let b_last = other.inner[other.inner.len() - 1].0;
        a_first <= b_last && b_first <= a_last
    }

    /// Returns `true` if both vectors have at least one dimension in common.
    #[verifier::loop_isolation(false)]
    pub fn overlaps_with(&self, other: &Vector) -> (r: bool)
        requires
            self.wf(),
            other.wf(),
        ensures
            r == exists|d: u32| self.spec_has_dim(d) && other.spec_has_dim(d),
    {
        if !self.could_overlap(other) {
            proof {
                assert forall|d: u32| !(self.spec_has_dim(d) && other.spec_has_dim(d)) by {
                    if self.spec_has_dim(d) && other.spec_has_dim(d) {
                        let ai = choose|i: int|
                            0 <= i < self.spec_pairs().len() && (#[trigger] self.spec_pairs()[i]).0
                                == d;
                        let bi = choose|i: int|
                            0 <= i < other.spec_pairs().len() && (#[trigger] other.spec_pairs()[i]).0
                                == d;
                        assert(self.spec_pairs()[0].0 <= self.spec_pairs()[ai].0);
                        assert(self.spec_pairs()[ai].0 <= self.spec_pairs().last().0);
                        assert(other.spec_pairs()[0].0 <= other.spec_pairs()[bi].0);
                        assert(other.spec_pairs()[bi].0 <= other.spec_pairs().last().0);
                    }
                }
            }
            return false;
        }
        let av = &self.inner;
        let bv = &other.inner;
        let mut i: usize = 0;
        let mut j: usize = 0;
        while i < av.len() && j < bv.len()
            invariant
                0 <= i <= av@.len(),
                0 <= j <= bv@.len(),
                forall|d: u32|
                    #![trigger seq_has_dim(av@, d)]
                    seq_has_dim(av@, d) && seq_has_dim(bv@, d) ==> has_dim_from(av@, i as int, d)
                        && has_dim_from(bv@, j as int, d),
            decreases av@.len() - i + bv@.len() - j,
        {
            let da = av[i].0;
            let db = bv[j].0;
            if da == db {
                proof {
                    assert(av@[i as int].0 == da);
                    assert(bv@[j as int].0 == da);
                    assert(self.spec_has_dim(da) && other.spec_has_dim(da));
                }
                return true;
            } else if da < db {
                proof {
                    lemma_merge_advance(av@, bv@, i as int, j as int);
                    assert forall|d: u32|
                        #![trigger seq_has_dim(av@, d)]
                        seq_has_dim(av@, d) && seq_has_dim(bv@, d) implies (has_dim_from(
                        av@,
                        i as int + 1,
                        d,
                    ) && has_dim_from(bv@, j as int, d)) by {
                        assert(has_dim_from(av@, i as int, d) && has_dim_from(bv@, j as int, d));
                    }
                }
                i += 1;
            } else {
                proof {
                    lemma_merge_advance(bv@, av@, j as int, i as int);
                    assert forall|d: u32|
                        #![trigger seq_has_dim(av@, d)]
                        seq_has_dim(av@, d) && seq_has_dim(bv@, d) implies (has_dim_from(
                        av@,
                        i as int,
                        d,
                    ) && has_dim_from(bv@, j as int + 1, d)) by {
                        assert(has_dim_from(av@, i as int, d) && has_dim_from(bv@, j as int, d));
                    }
                }
                j += 1;
            }
        }
        proof {
            assert forall|d: u32| !(seq_has_dim(av@, d) && seq_has_dim(bv@, d)) by {
                if seq_has_dim(av@, d) && seq_has_dim(bv@, d) {
                    assert(has_dim_from(av@, i as int, d) && has_dim_from(bv@, j as int, d));
                }
            }
        }
        false
    }

    /// Returns the merged view of all overlapping dimensions: one triple
    /// `(dim, weight in self, weight in other)` for every dimension both
    /// vectors share, ascending by dimension.
    #[verifier::loop_isolation(false)]
    pub fn overlapping(&self, other: &Vector) -> (r: Vec<(u32, u32, u32)>)
        requires
            self.wf(),
            other.wf(),
        ensures
            forall|i: int, j: int|
                #![trigger r@[i], r@[j]]
                0 <= i < j < r@.len() ==> r@[i].0 < r@[j].0,
            forall|i: int|
                0 <= i < r@.len() ==> self.spec_has_dim((#[trigger] r@[i]).0) && other.spec_has_dim(
                    r@[i].0,
                ) && r@[i].1 == self.spec_weight(r@[i].0) && r@[i].2 == other.spec_weight(r@[i].0),
            forall|d: u32|
                #![trigger trip_has_dim(r@, d)]
                self.spec_has_dim(d) && other.spec_has_dim(d) ==> trip_has_dim(r@, d),
    {
        let av = &self.inner;
        let bv = &other.inner;
        let mut out: Vec<(u32, u32, u32)> = Vec::new();
        let mut i: usize = 0;
        let mut j: usize = 0;
        while i < av.len() && j < bv.len()
            invariant
                0 <= i <= av@.len(),
                0 <= j <= bv@.len(),
                forall|d: u32|
                    #![trigger seq_has_dim(av@, d)]
                    seq_has_dim(av@, d) && seq_has_dim(bv@, d) ==> (trip_has_dim(out@, d) || (
                    has_dim_from(av@, i as int, d) && has_dim_from(bv@, j as int, d))),
                forall|k: int, l: int|
                    #![trigger out@[k], out@[l]]
                    0 <= k < l < out@.len() ==> out@[k].0 < out@[l].0,
                forall|k: int|
                    0 <= k < out@.len() ==> seq_has_dim(av@, (#[trigger] out@[k]).0) && seq_has_dim(
                        bv@,
                        out@[k].0,
                    ) && out@[k].1 == first_weight(av@, out@[k].0) && out@[k].2 == first_weight(
                        bv@,
                        out@[k].0,
                    ),
                forall|k: int|
                    0 <= k < out@.len() ==> (i < av@.len() ==> (#[trigger] out@[k]).0 < av@[i as int].0)
                        && (j < bv@.len() ==> out@[k].0 < bv@[j as int].0),
            decreases av@.len() - i + bv@.len() - j,
        {
            let da = av[i].0;
            let db = bv[j].0;
            if da == db {
                proof {
                    lemma_sorted_weight(av@, i as int);
                    lemma_sorted_weight(bv@, j as int);
                    assert(av@[i as int].0 == da);
                    assert(bv@[j as int].0 == da);
                    assert(seq_has_dim(av@, da));
                    assert(seq_has_dim(bv@, da));
                }
                let ghost prev_out = out@;
                out.push((da, av[i].1, bv[j].1));
                proof {
                    assert(out@ == prev_out.push((da, av@[i as int].1, bv@[j as int].1)));
                    assert(out@[prev_out.len() as int].0 == da);
                    assert(trip_has_dim(out@, da));
                    assert forall|d: u32|
                        #![trigger seq_has_dim(av@, d)]
                        seq_has_dim(av@, d) && seq_has_dim(bv@, d) implies (trip_has_dim(out@, d)
                            || (has_dim_from(av@, i as int + 1, d) && has_dim_from(
                            bv@,
                            j as int + 1,
                            d,
                        ))) by {
                        if d == da {
                        } else if trip_has_dim(prev_out, d) {
                            let k = choose|k: int|
                                0 <= k < prev_out.len() && (#[trigger] prev_out[k]).0 == d;
                            assert(out@[k].0 == d);
                            assert(trip_has_dim(out@, d));
                        } else {
                            assert(has_dim_from(av@, i as int, d) && has_dim_from(
                                bv@,
                                j as int,
                                d,
                            ));
                            let ka = choose|k: int|
                                i as int <= k < av@.len() && (#[trigger] av@[k]).0 == d;
                            let kb = choose|k: int|
                                j as int <= k < bv@.len() && (#[trigger] bv@[k]).0 == d;
                            assert(ka != i as int && kb != j as int);
                            assert(has_dim_from(av@, i as int + 1, d));
                            assert(has_dim_from(bv@, j as int + 1, d));
                        }
                    }
                    assert forall|k: int, l: int|
                        #![trigger out@[k], out@[l]]
                        0 <= k < l < out@.len() implies out@[k].0 < out@[l].0 by {
                        if l < out@.len() - 1 {
                            assert(out@[k] == prev_out[k] && out@[l] == prev_out[l]);
                        } else {
                            assert(out@[l].0 == da);
                            assert(out@[k] == prev_out[k]);
                            assert(prev_out[k].0 < av@[i as int].0);
                        }
                    }
                    assert forall|k: int|
                        0 <= k < out@.len() implies ((i as int + 1 < av@.len() ==> (
                        #[trigger] out@[k]).0 < av@[i as int + 1].0) && (j as int + 1 < bv@.len()
                            ==> out@[k].0 < bv@[j as int + 1].0)) by {
                        if k < out@.len() - 1 {
                            assert(out@[k] == prev_out[k]);
                            assert(out@[k].0 < av@[i as int].0);
                        } else {
                            assert(out@[k].0 == da);
                        }
                        if i as int + 1 < av@.len() {
                            assert(av@[i as int].0 < av@[i as int + 1].0);
                        }
                        if j as int + 1 < bv@.len() {
                            assert(bv@[j as int].0 < bv@[j as int + 1].0);
                        }
                    }
                    assert forall|k: int|
                        0 <= k < out@.len() implies seq_has_dim(av@, (#[trigger] out@[k]).0)
                            && seq_has_dim(bv@, out@[k].0) && out@[k].1 == first_weight(
                            av@,
                            out@[k].0,
                        ) && out@[k].2 == first_weight(bv@, out@[k].0) by {
                        if k < out@.len() - 1 {
                            assert(out@[k] == prev_out[k]);
                        } else {
                            assert(out@[k] == (da, av@[i as int].1, bv@[j as int].1));
                        }
                    }
                }
                i += 1;
                j += 1;
            } else if da < db {
                proof {
                    lemma_merge_advance(av@, bv@, i as int, j as int);
                    assert forall|d: u32|
                        #![trigger seq_has_dim(av@, d)]
                        seq_has_dim(av@, d) && seq_has_dim(bv@, d) implies (trip_has_dim(out@, d)
                            || (has_dim_from(av@, i as int + 1, d) && has_dim_from(
                            bv@,
                            j as int,
                            d,
                        ))) by {
                        if !trip_has_dim(out@, d) {
                            assert(has_dim_from(av@, i as int, d) && has_dim_from(
                                bv@,
                                j as int,
                                d,
                            ));
                        }
                    }
                    assert forall|k: int|
                        0 <= k < out@.len() implies (i as int + 1 < av@.len() ==> (
                        #[trigger] out@[k]).0 < av@[i as int + 1].0) by {
                        assert(out@[k].0 < av@[i as int].0);
                        if i as int + 1 < av@.len() {
                            assert(av@[i as int].0 < av@[i as int + 1].0);
                        }
                    }
                }
                i += 1;
            } else {
                proof {
                    lemma_merge_advance(bv@, av@, j as int, i as int);
                    assert forall|d: u32|
                        #![trigger seq_has_dim(av@, d)]
                        seq_has_dim(av@, d) && seq_has_dim(bv@, d) implies (trip_has_dim(out@, d)
                            || (has_dim_from(av@, i as int, d) && has_dim_from(
                            bv@,
                            j as int + 1,
                            d,
                        ))) by {
                        if !trip_has_dim(out@, d) {
                            assert(has_dim_from(av@, i as int, d) && has_dim_from(
                                bv@,
                                j as int,
                                d,
                            ));
                        }
                    }
                    assert forall|k: int|
                        0 <= k < out@.len() implies (j as int + 1 < bv@.len() ==> (
                        #[trigger] out@[k]).0 < bv@[j as int + 1].0) by {
                        assert(out@[k].0 < bv@[j as int].0);
                        if j as int + 1 < bv@.len() {
                            assert(bv@[j as int].0 < bv@[j as int + 1].0);
                        }
                    }
                }
                j += 1;
            }
        }
        proof {
            assert forall|d: u32|
                self.spec_has_dim(d) && other.spec_has_dim(d) implies trip_has_dim(out@, d) by {
                assert(seq_has_dim(av@, d) && seq_has_dim(bv@, d));
            }
        }
        out
    }
}

/// Advancing the pointer with the smaller head in a lockstep merge loses no
/// common dimension: the skipped head is not a dimension of the other side's
/// remainder, and skipping cannot hide any other dimension.
pub proof fn lemma_merge_advance(a: Seq<(u32, u32)>, b: Seq<(u32, u32)>, i: int, j: int)
    requires
        pairs_sorted(a),
        pairs_sorted(b),
        0 <= i < a.len(),
        0 <= j < b.len(),
        a[i].0 < b[j].0,
    ensures
        forall|d: u32|
            #![trigger has_dim_from(a, i + 1, d)]
            has_dim_from(a, i, d) && has_dim_from(b, j, d) ==> has_dim_from(a, i + 1, d),
{
    assert forall|d: u32|
        has_dim_from(a, i, d) && has_dim_from(b, j, d) implies has_dim_from(a, i + 1, d) by {
        let ka = choose|k: int| i <= k < a.len() && (#[trigger] a[k]).0 == d;
        let kb = choose|k: int| j <= k < b.len() && (#[trigger] b[k]).0 == d;
        if kb > j {
            assert(b[j].0 < b[kb].0);
        }
        if ka == i {
            assert(a[i].0 == d);
            assert(d >= b[j].0);
            assert(false);
        }
        assert(ka >= i + 1 && a[ka].0 == d);
    }
}

/// Sorts pairs by dimension ascending, keeping for each dimension only the
/// first pair encountered in `src`.
#[verifier::loop_isolation(false)]
pub fn sort_dedup_pairs(src: &Vec<(u32, u32)>) -> (r: Vec<(u32, u32)>)
    ensures
        pairs_sorted(r@),
        forall|d: u32| seq_has_dim(r@, d) <==> seq_has_dim(src@, d),
        forall|i: int| 0 <= i < r@.len() ==> (#[trigger] r@[i]).1 == first_weight(src@, r@[i].0),
{
    let n = src.len();
    let mut out: Vec<(u32, u32)> = Vec::new();
    let mut k: usize = 0;
    while k < n
        invariant
            0 <= k <= n,
            pairs_sorted(out@),
            forall|d: u32| seq_has_dim(out@, d) <==> seq_has_dim(src@.take(k as int), d),
            forall|i: int|
                0 <= i < out@.len() ==> (#[trigger] out@[i]).1 == first_weight(src@, out@[i].0),
        decreases n - k,
    {
        let p = src[k];
        proof {
            assert(src@.take(k as int + 1) =~= src@.take(k as int).push(src@[k as int]));
            assert forall|d: u32|
                seq_has_dim(src@.take(k as int + 1), d) <==> (seq_has_dim(src@.take(k as int), d)
                    || src@[k as int].0 == d) by {
                let ext = src@.take(k as int + 1);
                if seq_has_dim(ext, d) {
                    let ki = choose|i: int| 0 <= i < ext.len() && (#[trigger] ext[i]).0 == d;
                    if ki < k as int {
                        assert(src@.take(k as int)[ki].0 == d);
                        assert(seq_has_dim(src@.take(k as int), d));
                    }
                }
                if seq_has_dim(src@.take(k as int), d) {
                    let ki = choose|i: int|
                        0 <= i < src@.take(k as int).len() && (#[trigger] src@.take(k as int)[i]).0
                            == d;
                    assert(ext[ki].0 == d);
                    assert(seq_has_dim(ext, d));
                }
                if src@[k as int].0 == d {
                    assert(ext[k as int].0 == d);
                    assert(seq_has_dim(ext, d));
                }
            }
        }
        // find the insert position for p.0
        let mut pos: usize = 0;
        while pos < out.len() && out[pos].0 < p.0
            invariant
                0 <= pos <= out@.len(),
                forall|i: int| 0 <= i < pos ==> (#[trigger] out@[i]).0 < p.0,
            decreases out@.len() - pos,
        {
            pos += 1;
        }
        if pos < out.len() && out[pos].0 == p.0 {
            // dimension already present: keep the first-encountered pair
            proof {
                assert(out@[pos as int].0 == p.0);
                assert(seq_has_dim(out@, p.0));
                assert forall|d: u32|
                    seq_has_dim(out@, d) <==> seq_has_dim(src@.take(k as int + 1), d) by {
                    if d == p.0 {
                        assert(seq_has_dim(out@, d));
                    }
                }
            }
        } else {
            proof {
                assert(!seq_has_dim(out@, p.0)) by {
                    if seq_has_dim(out@, p.0) {
                        let ki = choose|i: int| 0 <= i < out@.len() && (#[trigger] out@[i]).0 == p.0;
                        if ki >= pos as int {
                            assert((pos as int) < out@.len());
                            if ki > pos as int {
                                assert(out@[pos as int].0 < out@[ki].0);
                                assert(out@[pos as int].0 < p.0);
                            }
                        }
                    }
                }
                assert(!seq_has_dim(src@.take(k as int), p.0));
                assert forall|i: int|
                    0 <= i < k as int implies (#[trigger] src@[i]).0 != src@[k as int].0 by {
                    if src@[i].0 == src@[k as int].0 {
                        assert(src@.take(k as int)[i].0 == p.0);
                        assert(seq_has_dim(src@.take(k as int), p.0));
                    }
                }
                lemma_first_weight_at(src@, k as int);
            }
            let ghost old_out = out@;
            out.insert(pos, p);
            proof {
                old_out.insert_ensures(pos as int, p);
                assert(out@ == old_out.insert(pos as int, p));
                assert forall|d: u32|
                    seq_has_dim(out@, d) <==> (seq_has_dim(old_out, d) || d == p.0) by {
                    if seq_has_dim(out@, d) {
                        let ki = choose|i: int| 0 <= i < out@.len() && (#[trigger] out@[i]).0 == d;
                        if ki < pos as int {
                            assert(out@[ki] == old_out[ki]);
                            assert(seq_has_dim(old_out, d));
                        } else if ki > pos as int {
                            assert(out@[ki] == old_out[ki - 1]);
                            assert(seq_has_dim(old_out, d));
                        }
                    }
                    if seq_has_dim(old_out, d) {
                        let ki = choose|i: int|
                            0 <= i < old_out.len() && (#[trigger] old_out[i]).0 == d;
                        if ki < pos as int {
                            assert(out@[ki] == old_out[ki]);
                            assert(seq_has_dim(out@, d));
                        } else {
                            assert(out@[ki + 1] == old_out[ki]);
                            assert(seq_has_dim(out@, d));
                        }
                    }
                    if d == p.0 {
                        assert(out@[pos as int] == p);
                        assert(seq_has_dim(out@, d));
                    }
                }
                assert forall|i: int, j: int|
                    #![trigger out@[i], out@[j]]
                    0 <= i < j < out@.len() implies out@[i].0 < out@[j].0 by {
                    if (pos as int) < old_out.len() {
                        assert(old_out[pos as int].0 > p.0);
                    }
                    if i < pos as int {
                        assert(out@[i] == old_out[i]);
                    } else if i == pos as int {
                        assert(out@[i] == p);
                    } else {
                        assert(out@[i] == old_out[i - 1]);
                    }
                    if j < pos as int {
                        assert(out@[j] == old_out[j]);
                    } else if j == pos as int {
                        assert(out@[j] == p);
                    } else {
                        assert(out@[j] == old_out[j - 1]);
                    }
                    if j > pos as int && i == pos as int && (pos as int) < old_out.len() {
                        if j - 1 > pos as int {
                            assert(old_out[pos as int].0 < old_out[j - 1].0);
                        }
                    }
                }
                assert forall|i: int|
                    0 <= i < out@.len() implies (#[trigger] out@[i]).1 == first_weight(
                    src@,
                    out@[i].0,
                ) by {
                    if i < pos as int {
                        assert(out@[i] == old_out[i]);
                    } else if i == pos as int {
                        assert(out@[i] == p);
                    } else {
                        assert(out@[i] == old_out[i - 1]);
                    }
                }
                assert forall|d: u32|
                    seq_has_dim(out@, d) <==> seq_has_dim(src@.take(k as int + 1), d) by {
                    assert(seq_has_dim(out@, d) <==> (seq_has_dim(old_out, d) || d == p.0));
                    assert(seq_has_dim(old_out, d) <==> seq_has_dim(src@.take(k as int), d));
                    assert(seq_has_dim(src@.take(k as int + 1), d) <==> (seq_has_dim(
                        src@.take(k as int),
                        d,
                    ) || src@[k as int].0 == d));
                }
            }
        }
        k += 1;
    }
    proof {
        assert(src@.take(n as int) =~= src@);
    }
    out
}

} // verus!
